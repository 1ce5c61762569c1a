//! Text in pieces: what a writer puts out, before the numbers in it
//! are printed.

use vstd::prelude::*;
use crate::geo_struct::{Real32, Real64};

verus! {

/// A piece of text: text as it stands, or a value that is printed as
/// the language prints values of its kind.
#[derive(Debug, Clone, PartialEq)]
pub enum Piece {
    Text(String),
    Int(i64),
    Double(Real64),
    Single(Real32),
    Bool(bool),
}

/// The model of a piece.
pub enum PieceModel {
    Text(Seq<char>),
    Int(i64),
    Double(Real64),
    Single(Real32),
    Bool(bool),
}

impl View for Piece {
    type V = PieceModel;

    open spec fn view(&self) -> PieceModel {
        match self {
            Piece::Text(s) => PieceModel::Text(s@),
            Piece::Int(x) => PieceModel::Int(*x),
            Piece::Double(x) => PieceModel::Double(*x),
            Piece::Single(x) => PieceModel::Single(*x),
            Piece::Bool(x) => PieceModel::Bool(*x),
        }
    }
}

/// The models of a list of pieces.
pub open spec fn pieces_view(pieces: Seq<Piece>) -> Seq<PieceModel> {
    Seq::new(pieces.len(), |i: int| pieces[i]@)
}

/// Text as it stands.
pub open spec fn text(s: &str) -> PieceModel {
    PieceModel::Text(s@)
}

/// Appends text as it stands.
pub fn put_text(out: &mut Vec<Piece>, s: &str)
    ensures
        pieces_view(final(out)@) == pieces_view(old(out)@).push(text(s)),
{
    out.push(Piece::Text(s.to_owned()));
    assert(pieces_view(out@) =~= pieces_view(old(out)@).push(text(s)));
}

/// Appends a piece.
pub fn put(out: &mut Vec<Piece>, piece: Piece)
    ensures
        pieces_view(final(out)@) == pieces_view(old(out)@).push(piece@),
{
    out.push(piece);
    assert(pieces_view(out@) =~= pieces_view(old(out)@).push(piece@));
}

/// Three reals with a blank between each two.
pub open spec fn spaced(v: Seq<Real64>) -> Seq<PieceModel> {
    seq![
        PieceModel::Double(v[0]),
        text(" "),
        PieceModel::Double(v[1]),
        text(" "),
        PieceModel::Double(v[2]),
    ]
}

/// Appends three reals with a blank between each two.
pub fn put_spaced(out: &mut Vec<Piece>, v: &[Real64])
    requires
        v@.len() >= 3,
    ensures
        pieces_view(final(out)@) == pieces_view(old(out)@) + spaced(v@),
{
    put(out, Piece::Double(v[0]));
    put_text(out, " ");
    put(out, Piece::Double(v[1]));
    put_text(out, " ");
    put(out, Piece::Double(v[2]));
    assert(pieces_view(out@) =~= pieces_view(old(out)@) + spaced(v@));
}

} // verus!
