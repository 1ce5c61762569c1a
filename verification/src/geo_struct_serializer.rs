//! A tree as text for reading: members one to a line where they are
//! containers, twenty to a line where they are not.

use vstd::prelude::*;
use crate::geo_struct::{
    entries_of, lemma_view_array, lemma_view_object, values_of, KeyValueEntry, ReaderElement,
    Real32, Real64, UniformArrayType, UniformValue, Value,
};
use crate::pieces::{pieces_view, put, put_text, text, Piece, PieceModel};

verus! {

/// What was written last among the members of an array.
#[derive(Clone, Copy, Debug, PartialEq, Eq, Structural)]
pub enum WroteWhat {
    Init,
    WroteInline,
    WroteBlock,
}

/// How far the members of an array were written: the text, what was
/// written last, and how many members stand in the line.
pub struct Members {
    pub pieces: Seq<PieceModel>,
    pub last: WroteWhat,
    pub in_line: int,
}

/// The indent of a line at depth `tabs`: two blanks for each level.
pub open spec fn indent(tabs: int) -> Seq<PieceModel>
    decreases tabs,
{
    if tabs <= 0 {
        Seq::empty()
    } else {
        indent(tabs - 1).push(text("  "))
    }
}

/// The end of one line and the indent of the next.
pub open spec fn new_line(tabs: int) -> Seq<PieceModel> {
    seq![text("\n")] + indent(tabs)
}

/// One level deeper; at the deepest level that a machine word counts,
/// no deeper.
pub open spec fn deeper(tabs: usize) -> usize {
    if tabs < usize::MAX {
        (tabs + 1) as usize
    } else {
        tabs
    }
}

/// Whether a value is written as a block of lines: an array or an
/// object.
pub open spec fn is_block(v: Value) -> bool {
    v is Array || v is Object
}

/// The first `upto` of the items with `, ` between each two.
pub open spec fn joined(items: Seq<PieceModel>, upto: int) -> Seq<PieceModel>
    decreases upto,
{
    if upto <= 0 {
        Seq::empty()
    } else if upto == 1 {
        seq![items[0]]
    } else {
        joined(items, upto - 1).push(text(", ")).push(items[upto - 1])
    }
}

/// The scalars of a uniform array, each as a piece.
pub open spec fn uniform_items(u: UniformValue) -> Seq<PieceModel> {
    match u {
        UniformValue::U8(v) => Seq::new(v.len(), |i: int| PieceModel::Int(v[i] as i64)),
        UniformValue::U16(v) => Seq::new(v.len(), |i: int| PieceModel::Int(v[i] as i64)),
        UniformValue::I8(v) => Seq::new(v.len(), |i: int| PieceModel::Int(v[i] as i64)),
        UniformValue::I16(v) => Seq::new(v.len(), |i: int| PieceModel::Int(v[i] as i64)),
        UniformValue::I32(v) => Seq::new(v.len(), |i: int| PieceModel::Int(v[i] as i64)),
        UniformValue::I64(v) => Seq::new(v.len(), |i: int| PieceModel::Int(v[i])),
        UniformValue::F16(v) => Seq::new(v.len(), |i: int| PieceModel::Single(v[i])),
        UniformValue::F32(v) => Seq::new(v.len(), |i: int| PieceModel::Single(v[i])),
        UniformValue::F64(v) => Seq::new(v.len(), |i: int| PieceModel::Double(v[i])),
        UniformValue::Bits(v) => Seq::new(v.len(), |i: int| PieceModel::Bool(v[i])),
    }
}

/// A value as text, at depth `tabs`.
///
/// An array opens a line and indents; a member that is a block starts a
/// line of its own unless it is the first, and is followed by the
/// indent; a member that is none starts a line after a block, and after
/// twenty of its kind in a line. An object puts each entry on a line, a
/// block after its key on the next. A uniform array stands in one line.
pub open spec fn json(v: Value, tabs: usize) -> Seq<PieceModel>
    decreases v, 0nat,
{
    match v {
        Value::Null => seq![text("None")],
        Value::Bool(b) => seq![PieceModel::Bool(b)],
        Value::Int(x) => seq![PieceModel::Int(x)],
        Value::Real(x) => seq![PieceModel::Double(x)],
        Value::Text(t) => seq![text("\""), PieceModel::Text(t), text("\"")],
        Value::Uniform(u) => seq![text("[")] + joined(
            uniform_items(u),
            uniform_items(u).len() as int,
        ) + seq![text("]")],
        Value::Array(items) => if items.len() == 0 {
            seq![text("[]")]
        } else {
            seq![text("[\n")] + indent(deeper(tabs) as int) + json_members(
                items,
                items.len() as int,
                tabs,
            ).pieces + new_line(tabs as int) + seq![text("]")]
        },
        Value::Object(entries) => if entries.len() == 0 {
            seq![text("{}")]
        } else {
            seq![text("{")] + json_entries(entries, entries.len() as int, tabs) + new_line(
                tabs as int,
            ) + seq![text("}")]
        },
    }
}

/// What a member of an array adds to the text: where it stands after
/// what was written last, and after how many members in the line; with
/// a comma unless it is the last.
pub open spec fn member_text(
    last: WroteWhat,
    in_line: int,
    member: Value,
    comma: bool,
    tabs: usize,
) -> Seq<PieceModel>
    decreases member, 1nat,
{
    if is_block(member) {
        (if last == WroteWhat::Init {
            Seq::empty()
        } else {
            new_line(deeper(tabs) as int)
        }) + json(member, deeper(tabs)) + (if comma {
            seq![text(", ")]
        } else {
            Seq::empty()
        }) + indent(deeper(tabs) as int)
    } else {
        (if last == WroteWhat::WroteBlock {
            new_line(deeper(tabs) as int)
        } else {
            Seq::empty()
        }) + (if in_line >= 20 {
            new_line(deeper(tabs) as int)
        } else {
            Seq::empty()
        }) + json(member, 0) + (if comma {
            seq![text(", ")]
        } else {
            Seq::empty()
        })
    }
}

/// What was written last, after a member.
pub open spec fn last_after(member: Value) -> WroteWhat {
    if is_block(member) {
        WroteWhat::WroteBlock
    } else {
        WroteWhat::WroteInline
    }
}

/// How many members stand in the line, after a member.
pub open spec fn in_line_after(in_line: int, member: Value) -> int {
    if is_block(member) {
        0
    } else if in_line >= 20 {
        1
    } else {
        in_line + 1
    }
}

/// The first `upto` members of an array as text.
pub open spec fn json_members(items: Seq<Value>, upto: int, tabs: usize) -> Members
    decreases items, upto,
{
    if upto <= 0 || upto > items.len() {
        Members { pieces: Seq::empty(), last: WroteWhat::Init, in_line: 0 }
    } else {
        let before = json_members(items, upto - 1, tabs);
        Members {
            pieces: before.pieces + member_text(
                before.last,
                before.in_line,
                items[upto - 1],
                upto < items.len(),
                tabs,
            ),
            last: last_after(items[upto - 1]),
            in_line: in_line_after(before.in_line, items[upto - 1]),
        }
    }
}

/// What an entry of an object adds to the text; with a comma unless it
/// is the last.
pub open spec fn entry_text(key: Seq<char>, member: Value, comma: bool, tabs: usize) -> Seq<
    PieceModel,
>
    decreases member, 1nat,
{
    if is_block(member) {
        new_line(deeper(tabs) as int) + seq![text("\""), PieceModel::Text(key), text("\":\n")]
            + indent(deeper(tabs) as int) + json(member, deeper(tabs)) + (if comma {
            seq![text(", ")]
        } else {
            Seq::empty()
        }) + indent(deeper(tabs) as int)
    } else {
        new_line(deeper(tabs) as int) + seq![text("\""), PieceModel::Text(key), text("\": ")]
            + json(member, 0) + (if comma {
            seq![text(", ")]
        } else {
            Seq::empty()
        })
    }
}

/// The first `upto` entries of an object as text.
pub open spec fn json_entries(entries: Seq<(Seq<char>, Value)>, upto: int, tabs: usize) -> Seq<
    PieceModel,
>
    decreases entries, upto,
{
    if upto <= 0 || upto > entries.len() {
        Seq::empty()
    } else {
        json_entries(entries, upto - 1, tabs) + entry_text(
            entries[upto - 1].0,
            entries[upto - 1].1,
            upto < entries.len(),
            tabs,
        )
    }
}

/// Appends the indent of a line.
fn write_tabs(output: &mut Vec<Piece>, tabs: usize)
    ensures
        pieces_view(final(output)@) == pieces_view(old(output)@) + indent(tabs as int),
{
    let ghost start = pieces_view(output@);
    assert(start + Seq::<PieceModel>::empty() =~= start);
    let mut i: usize = 0;
    while i < tabs
        invariant
            i <= tabs,
            pieces_view(output@) == start + indent(i as int),
        decreases tabs - i,
    {
        put_text(output, "  ");
        assert(pieces_view(output@) =~= start + indent(i + 1));
        i = i + 1;
    }
}

/// Appends the end of a line and the indent of the next.
fn write_new_line(output: &mut Vec<Piece>, tabs: usize)
    ensures
        pieces_view(final(output)@) == pieces_view(old(output)@) + new_line(tabs as int),
{
    put_text(output, "\n");
    write_tabs(output, tabs);
    assert(pieces_view(output@) =~= pieces_view(old(output)@) + new_line(tabs as int));
}

/// One level deeper.
fn next_level(tabs: usize) -> (r: usize)
    ensures
        r == deeper(tabs),
{
    if tabs < usize::MAX {
        tabs + 1
    } else {
        tabs
    }
}

/// Appends the scalars of a uniform array with `, ` between each two.
fn write_uniform(output: &mut Vec<Piece>, u: &UniformArrayType)
    ensures
        pieces_view(final(output)@) == pieces_view(old(output)@) + joined(
            uniform_items(u@),
            uniform_items(u@).len() as int,
        ),
{
    let ghost start = pieces_view(output@);
    let ghost all = u@;
    let ghost items = uniform_items(u@);
    assert(start + Seq::<PieceModel>::empty() =~= start);
    match u {
        UniformArrayType::UniformArrayTu8(v) => {
            let mut i: usize = 0;
            while i < v.len()
                invariant
                    i <= v@.len(),
                    items == uniform_items(u@),
                    u@ == all,
                    *u == UniformArrayType::UniformArrayTu8(*v),
                    pieces_view(output@) == start + joined(items, i as int),
                decreases v.len() - i,
            {
                if i > 0 {
                    put_text(output, ", ");
                }
                put(output, Piece::Int(v[i] as i64));
                assert(pieces_view(output@) =~= start + joined(items, i + 1));
                i = i + 1;
            }
        },
        UniformArrayType::UniformArrayTu16(v) => {
            let mut i: usize = 0;
            while i < v.len()
                invariant
                    i <= v@.len(),
                    items == uniform_items(u@),
                    u@ == all,
                    *u == UniformArrayType::UniformArrayTu16(*v),
                    pieces_view(output@) == start + joined(items, i as int),
                decreases v.len() - i,
            {
                if i > 0 {
                    put_text(output, ", ");
                }
                put(output, Piece::Int(v[i] as i64));
                assert(pieces_view(output@) =~= start + joined(items, i + 1));
                i = i + 1;
            }
        },
        UniformArrayType::UniformArrayTi8(v) => {
            let mut i: usize = 0;
            while i < v.len()
                invariant
                    i <= v@.len(),
                    items == uniform_items(u@),
                    u@ == all,
                    *u == UniformArrayType::UniformArrayTi8(*v),
                    pieces_view(output@) == start + joined(items, i as int),
                decreases v.len() - i,
            {
                if i > 0 {
                    put_text(output, ", ");
                }
                put(output, Piece::Int(v[i] as i64));
                assert(pieces_view(output@) =~= start + joined(items, i + 1));
                i = i + 1;
            }
        },
        UniformArrayType::UniformArrayTi16(v) => {
            let mut i: usize = 0;
            while i < v.len()
                invariant
                    i <= v@.len(),
                    items == uniform_items(u@),
                    u@ == all,
                    *u == UniformArrayType::UniformArrayTi16(*v),
                    pieces_view(output@) == start + joined(items, i as int),
                decreases v.len() - i,
            {
                if i > 0 {
                    put_text(output, ", ");
                }
                put(output, Piece::Int(v[i] as i64));
                assert(pieces_view(output@) =~= start + joined(items, i + 1));
                i = i + 1;
            }
        },
        UniformArrayType::UniformArrayTi32(v) => {
            let mut i: usize = 0;
            while i < v.len()
                invariant
                    i <= v@.len(),
                    items == uniform_items(u@),
                    u@ == all,
                    *u == UniformArrayType::UniformArrayTi32(*v),
                    pieces_view(output@) == start + joined(items, i as int),
                decreases v.len() - i,
            {
                if i > 0 {
                    put_text(output, ", ");
                }
                put(output, Piece::Int(v[i] as i64));
                assert(pieces_view(output@) =~= start + joined(items, i + 1));
                i = i + 1;
            }
        },
        UniformArrayType::UniformArrayTi64(v) => {
            let mut i: usize = 0;
            while i < v.len()
                invariant
                    i <= v@.len(),
                    items == uniform_items(u@),
                    u@ == all,
                    *u == UniformArrayType::UniformArrayTi64(*v),
                    pieces_view(output@) == start + joined(items, i as int),
                decreases v.len() - i,
            {
                if i > 0 {
                    put_text(output, ", ");
                }
                put(output, Piece::Int(v[i]));
                assert(pieces_view(output@) =~= start + joined(items, i + 1));
                i = i + 1;
            }
        },
        UniformArrayType::UniformArrayTf16(v) => {
            let mut i: usize = 0;
            while i < v.len()
                invariant
                    i <= v@.len(),
                    items == uniform_items(u@),
                    u@ == all,
                    *u == UniformArrayType::UniformArrayTf16(*v),
                    pieces_view(output@) == start + joined(items, i as int),
                decreases v.len() - i,
            {
                if i > 0 {
                    put_text(output, ", ");
                }
                put(output, Piece::Single(v[i]));
                assert(pieces_view(output@) =~= start + joined(items, i + 1));
                i = i + 1;
            }
        },
        UniformArrayType::UniformArrayTf32(v) => {
            let mut i: usize = 0;
            while i < v.len()
                invariant
                    i <= v@.len(),
                    items == uniform_items(u@),
                    u@ == all,
                    *u == UniformArrayType::UniformArrayTf32(*v),
                    pieces_view(output@) == start + joined(items, i as int),
                decreases v.len() - i,
            {
                if i > 0 {
                    put_text(output, ", ");
                }
                put(output, Piece::Single(v[i]));
                assert(pieces_view(output@) =~= start + joined(items, i + 1));
                i = i + 1;
            }
        },
        UniformArrayType::UniformArrayTf64(v) => {
            let mut i: usize = 0;
            while i < v.len()
                invariant
                    i <= v@.len(),
                    items == uniform_items(u@),
                    u@ == all,
                    *u == UniformArrayType::UniformArrayTf64(*v),
                    pieces_view(output@) == start + joined(items, i as int),
                decreases v.len() - i,
            {
                if i > 0 {
                    put_text(output, ", ");
                }
                put(output, Piece::Double(v[i]));
                assert(pieces_view(output@) =~= start + joined(items, i + 1));
                i = i + 1;
            }
        },
        UniformArrayType::UniformArrayTbool(v) => {
            let mut i: usize = 0;
            while i < v.len()
                invariant
                    i <= v@.len(),
                    items == uniform_items(u@),
                    u@ == all,
                    *u == UniformArrayType::UniformArrayTbool(*v),
                    pieces_view(output@) == start + joined(items, i as int),
                decreases v.len() - i,
            {
                if i > 0 {
                    put_text(output, ", ");
                }
                put(output, Piece::Bool(v[i]));
                assert(pieces_view(output@) =~= start + joined(items, i + 1));
                i = i + 1;
            }
        },
    }
}

/// Whether a node is written as a block of lines.
fn written_as_block(elem: &ReaderElement) -> (r: bool)
    ensures
        r == is_block(elem@),
{
    match elem {
        ReaderElement::Array(_) => true,
        ReaderElement::KeyValueObject(_) => true,
        _ => false,
    }
}

/// Appends a comma and a blank, where there is to be one.
fn write_comma(output: &mut Vec<Piece>, comma: bool)
    ensures
        pieces_view(final(output)@) == pieces_view(old(output)@) + (if comma {
            seq![text(", ")]
        } else {
            Seq::<PieceModel>::empty()
        }),
{
    if comma {
        put_text(output, ", ");
        assert(pieces_view(output@) =~= pieces_view(old(output)@) + seq![text(", ")]);
    } else {
        assert(pieces_view(output@) =~= pieces_view(old(output)@) + Seq::<PieceModel>::empty());
    }
}

/// Appends the end of a line and the indent of the next, where there is
/// to be a new line.
fn write_break(output: &mut Vec<Piece>, wanted: bool, tabs: usize)
    ensures
        pieces_view(final(output)@) == pieces_view(old(output)@) + (if wanted {
            new_line(tabs as int)
        } else {
            Seq::<PieceModel>::empty()
        }),
{
    if wanted {
        write_new_line(output, tabs);
    } else {
        assert(pieces_view(output@) =~= pieces_view(old(output)@) + Seq::<PieceModel>::empty());
    }
}

/// Appends a member of an array.
fn write_member(
    output: &mut Vec<Piece>,
    member: &ReaderElement,
    last: WroteWhat,
    in_line: usize,
    comma: bool,
    tabs: usize,
)
    ensures
        pieces_view(final(output)@) == pieces_view(old(output)@) + member_text(
            last,
            in_line as int,
            member@,
            comma,
            tabs,
        ),
    decreases member, 1nat,
{
    let ghost start = pieces_view(output@);
    let inner: usize = next_level(tabs);
    if written_as_block(member) {
        write_break(output, !matches!(last, WroteWhat::Init), inner);
        write_element(output, member, inner);
        write_comma(output, comma);
        write_tabs(output, inner);
    } else {
        write_break(output, matches!(last, WroteWhat::WroteBlock), inner);
        write_break(output, in_line >= 20, inner);
        write_element(output, member, 0);
        write_comma(output, comma);
    }
    assert(pieces_view(output@) =~= start + member_text(
        last,
        in_line as int,
        member@,
        comma,
        tabs,
    ));
}

/// Appends an entry of an object.
fn write_entry(output: &mut Vec<Piece>, entry: &KeyValueEntry, comma: bool, tabs: usize)
    ensures
        pieces_view(final(output)@) == pieces_view(old(output)@) + entry_text(
            entry.key@,
            entry.value@,
            comma,
            tabs,
        ),
    decreases entry.value, 1nat,
{
    let ghost start = pieces_view(output@);
    let inner: usize = next_level(tabs);
    write_new_line(output, inner);
    put_text(output, "\"");
    put(output, Piece::Text(entry.key.clone()));
    if written_as_block(&entry.value) {
        put_text(output, "\":\n");
        write_tabs(output, inner);
        write_element(output, &entry.value, inner);
        write_comma(output, comma);
        write_tabs(output, inner);
    } else {
        put_text(output, "\": ");
        write_element(output, &entry.value, 0);
        write_comma(output, comma);
    }
    assert(pieces_view(output@) =~= start + entry_text(entry.key@, entry.value@, comma, tabs));
}

/// Appends a tree as text, at depth `tabs`.
fn write_element(output: &mut Vec<Piece>, elem: &ReaderElement, tabs: usize)
    ensures
        pieces_view(final(output)@) == pieces_view(old(output)@) + json(elem@, tabs),
    decreases elem, 0nat,
{
    let ghost start = pieces_view(output@);
    match elem {
        ReaderElement::Array(x) => {
            proof {
                lemma_view_array(*x);
            }
            if x.len() == 0 {
                put_text(output, "[]");
                assert(pieces_view(output@) =~= start + json(elem@, tabs));
                return ;
            }
            put_text(output, "[\n");
            write_tabs(output, next_level(tabs));
            let ghost opened = pieces_view(output@);
            let ghost items = values_of(x@);
            assert(opened + Seq::<PieceModel>::empty() =~= opened);
            let mut last_wrote_what = WroteWhat::Init;
            let mut wrote_in_line: usize = 0;
            let mut i: usize = 0;
            while i < x.len()
                invariant
                    i <= x@.len(),
                    elem is Array,
                    elem->Array_0 == *x,
                    items == values_of(x@),
                    json_members(items, i as int, tabs).last == last_wrote_what,
                    json_members(items, i as int, tabs).in_line == wrote_in_line,
                    wrote_in_line <= 20,
                    pieces_view(output@) == opened + json_members(items, i as int, tabs).pieces,
                decreases x.len() - i,
            {
                let member: &ReaderElement = &x[i];
                assert(items[i as int] == member@);
                write_member(
                    output,
                    member,
                    last_wrote_what,
                    wrote_in_line,
                    i + 1 < x.len(),
                    tabs,
                );
                if written_as_block(member) {
                    last_wrote_what = WroteWhat::WroteBlock;
                    wrote_in_line = 0;
                } else {
                    last_wrote_what = WroteWhat::WroteInline;
                    wrote_in_line = if wrote_in_line >= 20 {
                        1
                    } else {
                        wrote_in_line + 1
                    };
                }
                assert(pieces_view(output@) =~= opened + json_members(items, i + 1, tabs).pieces);
                i = i + 1;
            }
            write_new_line(output, tabs);
            put_text(output, "]");
            assert(pieces_view(output@) =~= start + json(elem@, tabs));
        },
        ReaderElement::UniformArray(uniarr) => {
            put_text(output, "[");
            write_uniform(output, uniarr);
            put_text(output, "]");
            assert(pieces_view(output@) =~= start + json(elem@, tabs));
        },
        ReaderElement::KeyValueObject(x) => {
            proof {
                lemma_view_object(*x);
            }
            if x.len() == 0 {
                put_text(output, "{}");
                assert(pieces_view(output@) =~= start + json(elem@, tabs));
                return ;
            }
            put_text(output, "{");
            let ghost opened = pieces_view(output@);
            let ghost entries = entries_of(x@);
            assert(opened + Seq::<PieceModel>::empty() =~= opened);
            let mut i: usize = 0;
            while i < x.len()
                invariant
                    i <= x@.len(),
                    elem is KeyValueObject,
                    elem->KeyValueObject_0 == *x,
                    entries == entries_of(x@),
                    pieces_view(output@) == opened + json_entries(entries, i as int, tabs),
                decreases x.len() - i,
            {
                assert(entries[i as int] == (x@[i as int].key@, x@[i as int].value@));
                write_entry(output, &x[i], i + 1 < x.len(), tabs);
                assert(pieces_view(output@) =~= opened + json_entries(entries, i + 1, tabs));
                i = i + 1;
            }
            write_new_line(output, tabs);
            put_text(output, "}");
            assert(pieces_view(output@) =~= start + json(elem@, tabs));
        },
        ReaderElement::Bool(x) => {
            put(output, Piece::Bool(*x));
            assert(pieces_view(output@) =~= start + json(elem@, tabs));
        },
        ReaderElement::Int(x) => {
            put(output, Piece::Int(*x));
            assert(pieces_view(output@) =~= start + json(elem@, tabs));
        },
        ReaderElement::Float(x) => {
            put(output, Piece::Double(*x));
            assert(pieces_view(output@) =~= start + json(elem@, tabs));
        },
        ReaderElement::Null => {
            put_text(output, "None");
            assert(pieces_view(output@) =~= start + json(elem@, tabs));
        },
        ReaderElement::Text(x) => {
            put_text(output, "\"");
            put(output, Piece::Text(x.clone()));
            put_text(output, "\"");
            assert(pieces_view(output@) =~= start + json(elem@, tabs));
        },
    }
}

/// The text of a tree, in pieces.
pub fn to_json(elem: &ReaderElement) -> (r: Vec<Piece>)
    ensures
        pieces_view(r@) == json(elem@, 0),
{
    let mut out: Vec<Piece> = Vec::new();
    assert(pieces_view(out@) =~= Seq::<PieceModel>::empty());
    write_element(&mut out, elem, 0);
    assert(Seq::<PieceModel>::empty() + json(elem@, 0) =~= json(elem@, 0));
    out
}

} // verus!
