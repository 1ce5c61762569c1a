//! The generic value tree, its mathematical model, and paths into it.

use vstd::prelude::*;

verus! {

/// An IEEE 754 binary64 number, held by its bit pattern.
#[derive(Clone, Copy, Debug, PartialEq, Eq, Structural)]
pub struct Real64 {
    pub bits: u64,
}

/// An IEEE 754 binary32 number, held by its bit pattern.
#[derive(Clone, Copy, Debug, PartialEq, Eq, Structural)]
pub struct Real32 {
    pub bits: u32,
}

/// A homogeneous run of scalars, stored without a tag per element.
#[derive(Debug)]
pub enum UniformArrayType {
    UniformArrayTu8(Vec<u8>),
    UniformArrayTu16(Vec<u16>),
    UniformArrayTi8(Vec<i8>),
    UniformArrayTi16(Vec<i16>),
    UniformArrayTi32(Vec<i32>),
    UniformArrayTi64(Vec<i64>),
    /// Half precision on the wire, widened to binary32 when read.
    UniformArrayTf16(Vec<Real32>),
    UniformArrayTf32(Vec<Real32>),
    UniformArrayTf64(Vec<Real64>),
    UniformArrayTbool(Vec<bool>),
}

/// One entry of a key-value object.
#[derive(Debug)]
pub struct KeyValueEntry {
    pub key: String,
    pub value: ReaderElement,
}

/// A node of the generic value tree.
///
/// A key-value object keeps its entries in the order in which they were
/// inserted; in a well-formed tree no key occurs twice in one object.
#[derive(Debug)]
pub enum ReaderElement {
    Null,
    Bool(bool),
    Text(String),
    Int(i64),
    Float(Real64),
    Array(Vec<ReaderElement>),
    KeyValueObject(Vec<KeyValueEntry>),
    UniformArray(UniformArrayType),
}

/// The model of a uniform array.
pub enum UniformValue {
    U8(Seq<u8>),
    U16(Seq<u16>),
    I8(Seq<i8>),
    I16(Seq<i16>),
    I32(Seq<i32>),
    I64(Seq<i64>),
    F16(Seq<Real32>),
    F32(Seq<Real32>),
    F64(Seq<Real64>),
    Bits(Seq<bool>),
}

/// The model of a tree: what a `ReaderElement` stands for.
pub enum Value {
    Null,
    Bool(bool),
    Int(i64),
    Real(Real64),
    Text(Seq<char>),
    Array(Seq<Value>),
    Object(Seq<(Seq<char>, Value)>),
    Uniform(UniformValue),
}

impl View for UniformArrayType {
    type V = UniformValue;

    open spec fn view(&self) -> UniformValue {
        match self {
            UniformArrayType::UniformArrayTu8(v) => UniformValue::U8(v@),
            UniformArrayType::UniformArrayTu16(v) => UniformValue::U16(v@),
            UniformArrayType::UniformArrayTi8(v) => UniformValue::I8(v@),
            UniformArrayType::UniformArrayTi16(v) => UniformValue::I16(v@),
            UniformArrayType::UniformArrayTi32(v) => UniformValue::I32(v@),
            UniformArrayType::UniformArrayTi64(v) => UniformValue::I64(v@),
            UniformArrayType::UniformArrayTf16(v) => UniformValue::F16(v@),
            UniformArrayType::UniformArrayTf32(v) => UniformValue::F32(v@),
            UniformArrayType::UniformArrayTf64(v) => UniformValue::F64(v@),
            UniformArrayType::UniformArrayTbool(v) => UniformValue::Bits(v@),
        }
    }
}

impl View for ReaderElement {
    type V = Value;

    open spec fn view(&self) -> Value
        decreases self,
    {
        match self {
            ReaderElement::Null => Value::Null,
            ReaderElement::Bool(b) => Value::Bool(*b),
            ReaderElement::Text(s) => Value::Text(s@),
            ReaderElement::Int(i) => Value::Int(*i),
            ReaderElement::Float(r) => Value::Real(*r),
            ReaderElement::Array(v) => Value::Array(
                Seq::new(
                    v@.len(),
                    |i: int|
                        if 0 <= i < v@.len() {
                            v@[i].view()
                        } else {
                            Value::Null
                        },
                ),
            ),
            ReaderElement::KeyValueObject(m) => Value::Object(
                Seq::new(
                    m@.len(),
                    |i: int|
                        if 0 <= i < m@.len() {
                            (m@[i].key@, m@[i].value.view())
                        } else {
                            (Seq::empty(), Value::Null)
                        },
                ),
            ),
            ReaderElement::UniformArray(u) => Value::Uniform(u@),
        }
    }
}

/// The models of a run of elements, in order.
pub open spec fn values_of(elements: Seq<ReaderElement>) -> Seq<Value> {
    Seq::new(elements.len(), |i: int| elements[i]@)
}

/// The models of a run of entries, in order.
pub open spec fn entries_of(entries: Seq<KeyValueEntry>) -> Seq<(Seq<char>, Value)> {
    Seq::new(entries.len(), |i: int| (entries[i].key@, entries[i].value@))
}

/// The view of an array is the run of its children's views.
pub proof fn lemma_view_array(v: Vec<ReaderElement>)
    ensures
        ReaderElement::Array(v)@ == Value::Array(values_of(v@)),
{
    reveal_with_fuel(<ReaderElement as View>::view, 2);
    assert(ReaderElement::Array(v)@->Array_0 =~= values_of(v@));
}

/// The view of an object is the run of its entries' views.
pub proof fn lemma_view_object(m: Vec<KeyValueEntry>)
    ensures
        ReaderElement::KeyValueObject(m)@ == Value::Object(entries_of(m@)),
{
    reveal_with_fuel(<ReaderElement as View>::view, 2);
    assert(ReaderElement::KeyValueObject(m)@->Object_0 =~= entries_of(m@));
}

/// The position of the first entry with the given key, or the number of
/// entries if there is none.
pub open spec fn key_position<V>(entries: Seq<(Seq<char>, V)>, key: Seq<char>) -> int
    decreases entries.len(),
{
    if entries.len() == 0 {
        0
    } else if entries[0].0 == key {
        0
    } else {
        1 + key_position(entries.drop_first(), key)
    }
}

/// The entries after `key` was set to `value`: an entry that has the key
/// gets the value, where it stands; else a new entry is added at the end.
pub open spec fn object_insert<V>(
    entries: Seq<(Seq<char>, V)>,
    key: Seq<char>,
    value: V,
) -> Seq<(Seq<char>, V)> {
    if key_position(entries, key) < entries.len() {
        entries.update(key_position(entries, key), (key, value))
    } else {
        entries.push((key, value))
    }
}

/// No key occurs twice.
pub open spec fn keys_unique<V>(entries: Seq<(Seq<char>, V)>) -> bool {
    forall|i: int, j: int|
        0 <= i < j < entries.len() ==> (#[trigger] entries[i]).0 != (#[trigger] entries[j]).0
}

/// Every object of the tree, at any depth, has unique keys.
pub open spec fn well_formed(v: Value) -> bool
    decreases v,
{
    match v {
        Value::Array(items) => forall|i: int|
            0 <= i < items.len() ==> well_formed(#[trigger] items[i]),
        Value::Object(entries) => keys_unique(entries) && forall|i: int|
            0 <= i < entries.len() ==> well_formed((#[trigger] entries[i]).1),
        _ => true,
    }
}

/// The value that the first entry with the given key has.
pub open spec fn object_get<V>(entries: Seq<(Seq<char>, V)>, key: Seq<char>) -> Option<V> {
    if key_position(entries, key) < entries.len() {
        Some(entries[key_position(entries, key)].1)
    } else {
        None
    }
}

/// The position of a key lies within the entries or just behind them,
/// and no entry before it has the key.
pub proof fn lemma_key_position<V>(entries: Seq<(Seq<char>, V)>, key: Seq<char>)
    ensures
        0 <= key_position(entries, key) <= entries.len(),
        key_position(entries, key) < entries.len() ==> entries[key_position(entries, key)].0
            == key,
        forall|i: int| 0 <= i < key_position(entries, key) ==> (#[trigger] entries[i]).0 != key,
    decreases entries.len(),
{
    if entries.len() > 0 && entries[0].0 != key {
        let tail = entries.drop_first();
        lemma_key_position(tail, key);
        assert forall|i: int| 0 <= i < key_position(entries, key) implies (
        #[trigger] entries[i]).0 != key by {
            if i > 0 {
                assert(entries[i] == tail[i - 1]);
            }
        }
    }
}

/// To set a key keeps the keys apart.
pub proof fn lemma_insert_keeps_unique<V>(entries: Seq<(Seq<char>, V)>, key: Seq<char>, value: V)
    requires
        keys_unique(entries),
    ensures
        keys_unique(object_insert(entries, key, value)),
        forall|i: int|
            0 <= i < object_insert(entries, key, value).len() ==> (#[trigger] object_insert(
                entries,
                key,
                value,
            )[i]).1 == value || (i < entries.len() && object_insert(entries, key, value)[i].1
                == entries[i].1),
{
    lemma_key_position(entries, key);
    let after = object_insert(entries, key, value);
    let at = key_position(entries, key);
    assert forall|i: int, j: int| 0 <= i < j < after.len() implies (#[trigger] after[i]).0 != (
    #[trigger] after[j]).0 by {
        if at < entries.len() {
            assert(after[i].0 == entries[i].0);
            assert(after[j].0 == entries[j].0);
        } else if j < entries.len() {
            assert(after[i] == entries[i]);
            assert(after[j] == entries[j]);
        } else {
            assert(after[i] == entries[i]);
        }
    }
}

/// The position of the first entry with the key `key`, if there is one.
pub fn find_entry(entries: &Vec<KeyValueEntry>, key: &String) -> (r: Option<usize>)
    ensures
        match r {
            Some(i) => i == key_position(entries_of(entries@), key@) && i < entries@.len(),
            None => key_position(entries_of(entries@), key@) == entries@.len(),
        },
{
    let mut i: usize = 0;
    assert(entries_of(entries@).skip(0) =~= entries_of(entries@));
    while i < entries.len()
        invariant
            i <= entries.len(),
            key_position(entries_of(entries@), key@) == i + key_position(
                entries_of(entries@).skip(i as int),
                key@,
            ),
        decreases entries.len() - i,
    {
        proof {
            let rest = entries_of(entries@).skip(i as int);
            assert(rest[0] == entries_of(entries@)[i as int]);
            assert(rest.drop_first() =~= entries_of(entries@).skip(i + 1));
        }
        if entries[i].key == *key {
            return Some(i);
        }
        i = i + 1;
    }
    proof {
        assert(entries_of(entries@).skip(i as int) =~= Seq::<(Seq<char>, Value)>::empty());
    }
    None
}

/// Sets `key` to `value`: in the entry that has the key, else in a new
/// entry at the end.
pub fn insert_entry(entries: &mut Vec<KeyValueEntry>, key: String, value: ReaderElement)
    ensures
        entries_of(final(entries)@) == object_insert(entries_of(old(entries)@), key@, value@),
{
    match find_entry(entries, &key) {
        Some(i) => {
            entries.set(i, KeyValueEntry { key, value });
        },
        None => {
            entries.push(KeyValueEntry { key, value });
        },
    }
    assert(entries_of(entries@) =~= object_insert(entries_of(old(entries)@), key@, value@));
}

impl Clone for UniformArrayType {
    fn clone(&self) -> (r: Self)
        ensures
            r@ == self@,
    {
        match self {
            UniformArrayType::UniformArrayTu8(v) => UniformArrayType::UniformArrayTu8(v.clone()),
            UniformArrayType::UniformArrayTu16(v) => UniformArrayType::UniformArrayTu16(v.clone()),
            UniformArrayType::UniformArrayTi8(v) => UniformArrayType::UniformArrayTi8(v.clone()),
            UniformArrayType::UniformArrayTi16(v) => UniformArrayType::UniformArrayTi16(v.clone()),
            UniformArrayType::UniformArrayTi32(v) => UniformArrayType::UniformArrayTi32(v.clone()),
            UniformArrayType::UniformArrayTi64(v) => UniformArrayType::UniformArrayTi64(v.clone()),
            UniformArrayType::UniformArrayTf16(v) => UniformArrayType::UniformArrayTf16(v.clone()),
            UniformArrayType::UniformArrayTf32(v) => UniformArrayType::UniformArrayTf32(v.clone()),
            UniformArrayType::UniformArrayTf64(v) => UniformArrayType::UniformArrayTf64(v.clone()),
            UniformArrayType::UniformArrayTbool(v) => UniformArrayType::UniformArrayTbool(
                v.clone(),
            ),
        }
    }
}

impl Clone for ReaderElement {
    /// A copy of the whole tree.
    fn clone(&self) -> (r: Self)
        ensures
            r@ == self@,
        decreases self,
    {
        match self {
            ReaderElement::Null => ReaderElement::Null,
            ReaderElement::Bool(b) => ReaderElement::Bool(*b),
            ReaderElement::Text(s) => ReaderElement::Text(s.clone()),
            ReaderElement::Int(i) => ReaderElement::Int(*i),
            ReaderElement::Float(f) => ReaderElement::Float(*f),
            ReaderElement::Array(v) => {
                let mut out: Vec<ReaderElement> = Vec::new();
                let mut i: usize = 0;
                while i < v.len()
                    invariant
                        i <= v.len(),
                        self is Array,
                        self->Array_0 == *v,
                        out@.len() == i,
                        forall|j: int| 0 <= j < i ==> (#[trigger] out@[j])@ == v@[j]@,
                    decreases v.len() - i,
                {
                    out.push(v[i].clone());
                    i = i + 1;
                }
                proof {
                    lemma_view_array(*v);
                    lemma_view_array(out);
                    assert(values_of(out@) =~= values_of(v@));
                }
                ReaderElement::Array(out)
            },
            ReaderElement::KeyValueObject(m) => {
                let mut out: Vec<KeyValueEntry> = Vec::new();
                let mut i: usize = 0;
                while i < m.len()
                    invariant
                        i <= m.len(),
                        self is KeyValueObject,
                        self->KeyValueObject_0 == *m,
                        out@.len() == i,
                        forall|j: int|
                            0 <= j < i ==> (#[trigger] out@[j]).key@ == m@[j].key@ && out@[j].value@
                                == m@[j].value@,
                    decreases m.len() - i,
                {
                    out.push(KeyValueEntry { key: m[i].key.clone(), value: m[i].value.clone() });
                    i = i + 1;
                }
                proof {
                    lemma_view_object(*m);
                    lemma_view_object(out);
                    assert(entries_of(out@) =~= entries_of(m@));
                }
                ReaderElement::KeyValueObject(out)
            },
            ReaderElement::UniformArray(u) => ReaderElement::UniformArray(u.clone()),
        }
    }
}

/// One step of a path: into an array by position, or into an object by
/// key.
pub enum Step {
    Index(int),
    Key(Seq<char>),
}

/// One step of a path into a tree.
#[derive(Clone, Debug)]
pub enum ReaderElementPointerEntry {
    ArrayIndex(usize),
    MapKey(String),
}

impl View for ReaderElementPointerEntry {
    type V = Step;

    open spec fn view(&self) -> Step {
        match self {
            ReaderElementPointerEntry::ArrayIndex(i) => Step::Index(*i as int),
            ReaderElementPointerEntry::MapKey(k) => Step::Key(k@),
        }
    }
}

/// A path from the root of a tree to one of its nodes.
pub struct ReaderElementPointer {
    path: Vec<ReaderElementPointerEntry>,
}

impl View for ReaderElementPointer {
    type V = Seq<Step>;

    closed spec fn view(&self) -> Seq<Step> {
        Seq::new(self.path@.len(), |i: int| self.path@[i]@)
    }
}

/// The node that a path leads to from `v`, if each step finds what it
/// names: a position that the array has, a key that the object has. A
/// step that meets another kind of node finds nothing.
pub open spec fn located(v: Value, path: Seq<Step>) -> Option<Value>
    decreases path.len(),
{
    if path.len() == 0 {
        Some(v)
    } else {
        match (path[0], v) {
            (Step::Index(i), Value::Array(items)) => if 0 <= i < items.len() {
                located(items[i], path.skip(1))
            } else {
                None
            },
            (Step::Key(k), Value::Object(entries)) => match object_get(entries, k) {
                Some(child) => located(child, path.skip(1)),
                None => None,
            },
            _ => None,
        }
    }
}

impl ReaderElementPointer {
    /// The empty path, which leads to the root.
    pub fn new() -> (r: ReaderElementPointer)
        ensures
            r@ == Seq::<Step>::empty(),
    {
        let r = ReaderElementPointer { path: Vec::new() };
        assert(r@ =~= Seq::<Step>::empty());
        r
    }

    /// Lengthens the path by a step into an array.
    pub fn add_array_index(&mut self, idx: usize)
        ensures
            final(self)@ == old(self)@.push(Step::Index(idx as int)),
    {
        self.path.push(ReaderElementPointerEntry::ArrayIndex(idx));
        assert(self@ =~= old(self)@.push(Step::Index(idx as int)));
    }

    /// Lengthens the path by a step into an object.
    pub fn add_map_index(&mut self, key: String)
        ensures
            final(self)@ == old(self)@.push(Step::Key(key@)),
    {
        self.path.push(ReaderElementPointerEntry::MapKey(key));
        assert(self@ =~= old(self)@.push(Step::Key(key@)));
    }

    /// The node that the path leads to from `elem`.
    pub fn locate_key_in<'a>(&self, elem: &'a ReaderElement) -> (r: Option<&'a ReaderElement>)
        ensures
            match located(elem@, self@) {
                Some(v) => r is Some && r->0@ == v,
                None => r is None,
            },
    {
        let mut curr: &ReaderElement = elem;
        let mut i: usize = 0;
        assert(self@.skip(0) =~= self@);
        while i < self.path.len()
            invariant
                i <= self.path.len(),
                located(elem@, self@) == located(curr@, self@.skip(i as int)),
            decreases self.path.len() - i,
        {
            proof {
                assert(self@.skip(i as int)[0] == self.path@[i as int]@);
                assert(self@.skip(i as int).skip(1) =~= self@.skip(i + 1));
            }
            match (&self.path[i], curr) {
                (ReaderElementPointerEntry::ArrayIndex(idx), ReaderElement::Array(next_array)) => {
                    proof {
                        lemma_view_array(*next_array);
                    }
                    if *idx < next_array.len() {
                        curr = &next_array[*idx];
                    } else {
                        return None;
                    }
                },
                (
                    ReaderElementPointerEntry::MapKey(key),
                    ReaderElement::KeyValueObject(next_map),
                ) => {
                    proof {
                        lemma_view_object(*next_map);
                    }
                    match find_entry(next_map, key) {
                        Some(at) => {
                            curr = &next_map[at].value;
                        },
                        None => {
                            return None;
                        },
                    }
                },
                _ => {
                    return None;
                },
            }
            i = i + 1;
        }
        Some(curr)
    }
}

/// The tree `v` with the node that `path` leads to replaced by `node`;
/// `v` itself where the path leads nowhere.
pub open spec fn replaced(v: Value, path: Seq<Step>, node: Value) -> Value
    decreases path.len(),
{
    if path.len() == 0 {
        node
    } else {
        match (path[0], v) {
            (Step::Index(i), Value::Array(items)) => if 0 <= i < items.len() {
                Value::Array(items.update(i, replaced(items[i], path.skip(1), node)))
            } else {
                v
            },
            (Step::Key(k), Value::Object(entries)) => if key_position(entries, k) < entries.len() {
                Value::Object(
                    entries.update(
                        key_position(entries, k),
                        (
                            entries[key_position(entries, k)].0,
                            replaced(entries[key_position(entries, k)].1, path.skip(1), node),
                        ),
                    ),
                )
            } else {
                v
            },
            _ => v,
        }
    }
}

/// The node that the steps from `from` on lead to, for changing.
fn locate_from_mut<'a>(
    path: &Vec<ReaderElementPointerEntry>,
    from: usize,
    elem: &'a mut ReaderElement,
) -> (r: Option<&'a mut ReaderElement>)
    requires
        from <= path@.len(),
    ensures
        match located(old(elem)@, Seq::new(path@.len(), |i: int| path@[i]@).skip(from as int)) {
            Some(v) => r is Some && (*r->0)@ == v && final(elem)@ == replaced(
                old(elem)@,
                Seq::new(path@.len(), |i: int| path@[i]@).skip(from as int),
                (*final(r->0))@,
            ),
            None => r is None && final(elem)@ == old(elem)@,
        },
    decreases path@.len() - from,
{
    let ghost steps = Seq::new(path@.len(), |i: int| path@[i]@);
    if from >= path.len() {
        return Some(elem);
    }
    proof {
        assert(steps.skip(from as int)[0] == path@[from as int]@);
        assert(steps.skip(from as int).skip(1) =~= steps.skip(from + 1));
    }
    match (&path[from], elem) {
        (ReaderElementPointerEntry::ArrayIndex(idx), ReaderElement::Array(next_array)) => {
            let ghost before = *next_array;
            proof {
                lemma_view_array(before);
            }
            if *idx < next_array.len() {
                let ghost after = *final(next_array);
                let r = locate_from_mut(path, from + 1, &mut next_array[*idx]);
                proof {
                    lemma_view_array(after);
                    if r is Some {
                        assert(values_of(after@) =~= values_of(before@).update(
                            *idx as int,
                            replaced(
                                before@[*idx as int]@,
                                steps.skip(from + 1),
                                (*final(r->0))@,
                            ),
                        ));
                    } else {
                        assert(values_of(after@) =~= values_of(before@));
                    }
                }
                r
            } else {
                None
            }
        },
        (ReaderElementPointerEntry::MapKey(key), ReaderElement::KeyValueObject(next_map)) => {
            let ghost before = *next_map;
            proof {
                lemma_view_object(before);
                lemma_key_position(entries_of(before@), key@);
            }
            match find_entry(next_map, key) {
                Some(at) => {
                    let ghost after = *final(next_map);
                    let r = locate_from_mut(path, from + 1, &mut next_map[at].value);
                    proof {
                        lemma_view_object(after);
                        if r is Some {
                            assert(entries_of(after@) =~= entries_of(before@).update(
                                at as int,
                                (
                                    before@[at as int].key@,
                                    replaced(
                                        before@[at as int].value@,
                                        steps.skip(from + 1),
                                        (*final(r->0))@,
                                    ),
                                ),
                            ));
                        } else {
                            assert(entries_of(after@) =~= entries_of(before@));
                        }
                    }
                    r
                },
                None => None,
            }
        },
        _ => None,
    }
}

impl ReaderElementPointer {
    /// The node that the path leads to from `elem`, for changing: the
    /// tree is, in the end, what it was with that node replaced by what
    /// the caller made of it.
    pub fn locate_key_in_mut<'a>(&self, elem: &'a mut ReaderElement) -> (r: Option<
        &'a mut ReaderElement,
    >)
        ensures
            match located(old(elem)@, self@) {
                Some(v) => r is Some && (*r->0)@ == v && final(elem)@ == replaced(
                    old(elem)@,
                    self@,
                    (*final(r->0))@,
                ),
                None => r is None && final(elem)@ == old(elem)@,
            },
    {
        assert(self@.skip(0) =~= self@);
        locate_from_mut(&self.path, 0, elem)
    }
}

} // verus!
