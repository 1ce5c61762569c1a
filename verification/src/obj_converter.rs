//! Wavefront OBJ: points, texture coordinates and faces.

use vstd::prelude::*;
use crate::geo_attributes::{
    attributes_of, AttributeModel, GeoAttribute, GeoAttributeKind, TupleGeoAttribute,
};
use crate::geo_struct::{object_get, Real64, Value};
use crate::houdini_geo_schema::{
    polygons_of, polygons_view, GeoPolygon, GeoVertex, HoudiniGeoSchemaParser, Header, Polygon,
    SchemaError,
};
use crate::pieces::{pieces_view, put, put_spaced, put_text, spaced, text, Piece, PieceModel};
use crate::stl_converter::{reals_named, Triples};

verus! {

/// The first `upto` scalars of item `item` of an attribute of tuples,
/// which must hold the item, and that many scalars for it.
pub open spec fn lead(a: Triples, item: usize, upto: usize) -> Result<Seq<Real64>, SchemaError> {
    if item * a.tuple_size + a.tuple_size > a.data.len() {
        Err(SchemaError::OutOfRange)
    } else if a.tuple_size < upto {
        Err(SchemaError::Inconsistent)
    } else {
        Ok(a.data.subrange(item * a.tuple_size, item * a.tuple_size + upto))
    }
}

/// The line of a point: its position, and its colour where there is
/// one.
pub open spec fn point_line(points: Triples, colours: Option<Triples>, number: usize) -> Result<
    Seq<PieceModel>,
    SchemaError,
> {
    match lead(points, number, 3) {
        Err(x) => Err(x),
        Ok(p) => match colours {
            None => Ok(seq![text("v ")] + spaced(p) + seq![text("\n")]),
            Some(c) => match lead(c, number, 3) {
                Err(x) => Err(x),
                Ok(cd) => Ok(
                    seq![text("v ")] + spaced(p) + seq![text(" ")] + spaced(cd) + seq![text("\n")],
                ),
            },
        },
    }
}

/// The lines of the first `upto` points.
pub open spec fn point_lines(points: Triples, colours: Option<Triples>, upto: int) -> Result<
    Seq<PieceModel>,
    SchemaError,
>
    decreases upto,
{
    if upto <= 0 {
        Ok(Seq::empty())
    } else {
        match point_lines(points, colours, upto - 1) {
            Err(x) => Err(x),
            Ok(head) => match point_line(points, colours, (upto - 1) as usize) {
                Err(x) => Err(x),
                Ok(line) => Ok(head + line),
            },
        }
    }
}

/// The line of the texture coordinates of a vertex: three of them, or
/// two and a zero.
pub open spec fn texture_line(uvs: Triples, number: usize) -> Result<Seq<PieceModel>, SchemaError> {
    if uvs.tuple_size == 3 {
        match lead(uvs, number, 3) {
            Err(x) => Err(x),
            Ok(uv) => Ok(seq![text("vt ")] + spaced(uv) + seq![text("\n")]),
        }
    } else {
        match lead(uvs, number, 2) {
            Err(x) => Err(x),
            Ok(uv) => Ok(
                seq![
                    text("vt "),
                    PieceModel::Double(uv[0]),
                    text(" "),
                    PieceModel::Double(uv[1]),
                    text(" 0\n"),
                ],
            ),
        }
    }
}

/// The lines of the texture coordinates of the first `upto` vertices.
pub open spec fn texture_lines(uvs: Triples, upto: int) -> Result<Seq<PieceModel>, SchemaError>
    decreases upto,
{
    if upto <= 0 {
        Ok(Seq::empty())
    } else {
        match texture_lines(uvs, upto - 1) {
            Err(x) => Err(x),
            Ok(head) => match texture_line(uvs, (upto - 1) as usize) {
                Err(x) => Err(x),
                Ok(line) => Ok(head + line),
            },
        }
    }
}

/// A corner of a face: its point, and its vertex where there are
/// texture coordinates, both counted from 1.
pub open spec fn face_corner(v: GeoVertex, with_uvs: bool) -> Result<Seq<PieceModel>, SchemaError> {
    if v.ptnum >= i64::MAX || (with_uvs && v.vtxnum >= i64::MAX) {
        Err(SchemaError::OutOfRange)
    } else if with_uvs {
        Ok(
            seq![
                text(" "),
                PieceModel::Int((v.ptnum + 1) as i64),
                text("/"),
                PieceModel::Int((v.vtxnum + 1) as i64),
            ],
        )
    } else {
        Ok(seq![text(" "), PieceModel::Int((v.ptnum + 1) as i64)])
    }
}

/// The first `upto` corners of a face. The corners go round the other
/// way than those of the polygon, from the same corner: the first, then
/// the last, and on down to the second.
pub open spec fn face_corners(corners: Seq<GeoVertex>, with_uvs: bool, upto: int) -> Result<
    Seq<PieceModel>,
    SchemaError,
>
    decreases upto,
{
    if upto <= 0 {
        Ok(Seq::empty())
    } else {
        match face_corners(corners, with_uvs, upto - 1) {
            Err(x) => Err(x),
            Ok(head) => match face_corner(
                corners[(corners.len() - (upto - 1)) % (corners.len() as int)],
                with_uvs,
            ) {
                Err(x) => Err(x),
                Ok(c) => Ok(head + c),
            },
        }
    }
}

/// The line of a face.
pub open spec fn face_line(polygon: Polygon, with_uvs: bool) -> Result<Seq<PieceModel>, SchemaError> {
    match face_corners(polygon.vertices, with_uvs, polygon.vertices.len() as int) {
        Err(x) => Err(x),
        Ok(c) => Ok(seq![text("f")] + c + seq![text("\n")]),
    }
}

/// The lines of the first `upto` faces.
pub open spec fn face_lines(polygons: Seq<Polygon>, with_uvs: bool, upto: int) -> Result<
    Seq<PieceModel>,
    SchemaError,
>
    decreases upto,
{
    if upto <= 0 {
        Ok(Seq::empty())
    } else {
        match face_lines(polygons, with_uvs, upto - 1) {
            Err(x) => Err(x),
            Ok(head) => match face_line(polygons[upto - 1], with_uvs) {
                Err(x) => Err(x),
                Ok(line) => Ok(head + line),
            },
        }
    }
}

/// The colours of the points: the attribute `Cd`, which must be one of
/// reals where it is there.
pub open spec fn colours_of(point_attributes: Seq<(Seq<char>, AttributeModel)>) -> Result<
    Option<Triples>,
    SchemaError,
> {
    match object_get(point_attributes, "Cd"@) {
        None => Ok(None),
        Some(AttributeModel::Reals { tuple_size, reals }) => Ok(
            Some(Triples { tuple_size, data: reals }),
        ),
        Some(_) => Err(SchemaError::WrongType),
    }
}

/// The texture coordinates of the vertices: the attribute `uv`, where it
/// is one of tuples of two or three reals.
pub open spec fn textures_of(vertex_attributes: Seq<(Seq<char>, AttributeModel)>) -> Option<
    Triples,
> {
    match reals_named(vertex_attributes, "uv"@) {
        Some(t) => if t.tuple_size == 3 || t.tuple_size == 2 {
            Some(t)
        } else {
            None
        },
        None => None,
    }
}

/// A geometry as OBJ writes it: the points, the texture coordinates,
/// the faces.
pub open spec fn obj_lines(
    header: Header,
    polygons: Seq<Polygon>,
    point_attributes: Seq<(Seq<char>, AttributeModel)>,
    vertex_attributes: Seq<(Seq<char>, AttributeModel)>,
) -> Result<Seq<PieceModel>, SchemaError> {
    match reals_named(point_attributes, "P"@) {
        None => Err(SchemaError::WrongType),
        Some(points) => match colours_of(point_attributes) {
            Err(x) => Err(x),
            Ok(colours) => match point_lines(points, colours, header.point_count as int) {
                Err(x) => Err(x),
                Ok(v) => match (match textures_of(vertex_attributes) {
                    None => Ok(Seq::empty()),
                    Some(uvs) => texture_lines(uvs, header.vertex_count as int),
                }) {
                    Err(x) => Err(x),
                    Ok(vt) => match face_lines(
                        polygons,
                        textures_of(vertex_attributes) is Some,
                        polygons.len() as int,
                    ) {
                        Err(x) => Err(x),
                        Ok(f) => Ok(v + vt + f),
                    },
                },
            },
        },
    }
}

/// A tree as OBJ writes it: its primitives, its point attributes and
/// its vertex attributes are read, in this order, then the lines are
/// made.
pub open spec fn obj_pieces(root: Value, header: Header) -> Result<Seq<PieceModel>, SchemaError> {
    match polygons_of(root, header.indices) {
        Err(x) => Err(x),
        Ok(polygons) => match attributes_of(root, "pointattributes"@, "pointcount"@) {
            Err(x) => Err(x),
            Ok(point_attributes) => match attributes_of(
                root,
                "vertexattributes"@,
                "vertexcount"@,
            ) {
                Err(x) => Err(x),
                Ok(vertex_attributes) => obj_lines(
                    header,
                    polygons,
                    point_attributes,
                    vertex_attributes,
                ),
            },
        },
    }
}

/// The attribute as the size of its tuples and its scalars.
pub open spec fn triples_of(a: &TupleGeoAttribute<Real64>) -> Triples {
    Triples { tuple_size: a.width(), data: a.scalars() }
}

/// The first `upto` scalars of an item.
fn read_lead<'a>(a: &'a TupleGeoAttribute<Real64>, item: usize, upto: usize) -> (r: Result<
    &'a [Real64],
    SchemaError,
>)
    ensures
        match lead(triples_of(a), item, upto) {
            Ok(v) => r is Ok && r->Ok_0@ == v,
            Err(x) => r is Err && r->Err_0 == x,
        },
{
    if !a.holds_item(item) {
        return Err(SchemaError::OutOfRange);
    }
    if a.tuple_size() < upto {
        return Err(SchemaError::Inconsistent);
    }
    let whole: &[Real64] = a.value(item);
    let part: &[Real64] = vstd::slice::slice_subrange(whole, 0, upto);
    assert(part@ =~= a.scalars().subrange(item * a.width(), item * a.width() + upto));
    Ok(part)
}

/// Where the lines of the points fail up to some point, they fail for
/// all the points.
proof fn lemma_point_lines_prefix(points: Triples, colours: Option<Triples>, k: int, upto: int)
    requires
        k <= upto,
        point_lines(points, colours, k) is Err,
    ensures
        point_lines(points, colours, upto) == point_lines(points, colours, k),
    decreases upto - k,
{
    if k < upto {
        lemma_point_lines_prefix(points, colours, k, upto - 1);
    }
}

proof fn lemma_texture_lines_prefix(uvs: Triples, k: int, upto: int)
    requires
        k <= upto,
        texture_lines(uvs, k) is Err,
    ensures
        texture_lines(uvs, upto) == texture_lines(uvs, k),
    decreases upto - k,
{
    if k < upto {
        lemma_texture_lines_prefix(uvs, k, upto - 1);
    }
}

proof fn lemma_face_corners_prefix(corners: Seq<GeoVertex>, with_uvs: bool, k: int, upto: int)
    requires
        k <= upto,
        face_corners(corners, with_uvs, k) is Err,
    ensures
        face_corners(corners, with_uvs, upto) == face_corners(corners, with_uvs, k),
    decreases upto - k,
{
    if k < upto {
        lemma_face_corners_prefix(corners, with_uvs, k, upto - 1);
    }
}

proof fn lemma_face_lines_prefix(polygons: Seq<Polygon>, with_uvs: bool, k: int, upto: int)
    requires
        k <= upto,
        face_lines(polygons, with_uvs, k) is Err,
    ensures
        face_lines(polygons, with_uvs, upto) == face_lines(polygons, with_uvs, k),
    decreases upto - k,
{
    if k < upto {
        lemma_face_lines_prefix(polygons, with_uvs, k, upto - 1);
    }
}

/// Appends the lines of the points.
fn put_points(
    out: &mut Vec<Piece>,
    p_attr: &TupleGeoAttribute<Real64>,
    cd_attr: Option<&TupleGeoAttribute<Real64>>,
    point_count: usize,
) -> (r: Result<(), SchemaError>)
    ensures
        match point_lines(
            triples_of(p_attr),
            match cd_attr {
                Some(c) => Some(triples_of(c)),
                None => None,
            },
            point_count as int,
        ) {
            Ok(lines) => r is Ok && pieces_view(final(out)@) == pieces_view(old(out)@) + lines,
            Err(x) => r is Err && r->Err_0 == x,
        },
{
    let ghost points = triples_of(p_attr);
    let ghost colours = match cd_attr {
        Some(c) => Some(triples_of(c)),
        None => None,
    };
    let ghost start = pieces_view(out@);
    assert(start + Seq::<PieceModel>::empty() =~= start);
    let mut ptnum: usize = 0;
    while ptnum < point_count
        invariant
            ptnum <= point_count,
            points == triples_of(p_attr),
            colours == (match cd_attr {
                Some(c) => Some(triples_of(c)),
                None => None,
            }),
            point_lines(points, colours, ptnum as int) is Ok,
            pieces_view(out@) == start + point_lines(points, colours, ptnum as int)->Ok_0,
        decreases point_count - ptnum,
    {
        let ghost before = pieces_view(out@);
        let p: &[Real64] = match read_lead(p_attr, ptnum, 3) {
            Ok(x) => x,
            Err(x) => {
                proof {
                    assert(point_lines(points, colours, ptnum + 1) is Err);
                    lemma_point_lines_prefix(points, colours, ptnum + 1, point_count as int);
                }
                return Err(x);
            },
        };
        match cd_attr {
            Some(c) => {
                let cd: &[Real64] = match read_lead(c, ptnum, 3) {
                    Ok(x) => x,
                    Err(x) => {
                        proof {
                            assert(point_lines(points, colours, ptnum + 1) is Err);
                            lemma_point_lines_prefix(
                                points,
                                colours,
                                ptnum + 1,
                                point_count as int,
                            );
                        }
                        return Err(x);
                    },
                };
                put_text(out, "v ");
                put_spaced(out, p);
                put_text(out, " ");
                put_spaced(out, cd);
                put_text(out, "\n");
            },
            None => {
                put_text(out, "v ");
                put_spaced(out, p);
                put_text(out, "\n");
            },
        }
        proof {
            let line = point_line(points, colours, ptnum)->Ok_0;
            assert(pieces_view(out@) =~= before + line);
            assert(pieces_view(out@) =~= start + point_lines(points, colours, ptnum + 1)->Ok_0);
        }
        ptnum = ptnum + 1;
    }
    Ok(())
}

/// Appends the lines of the texture coordinates.
fn put_textures(out: &mut Vec<Piece>, uv_attr: &TupleGeoAttribute<Real64>, vertex_count: usize) -> (r:
    Result<(), SchemaError>)
    ensures
        match texture_lines(triples_of(uv_attr), vertex_count as int) {
            Ok(lines) => r is Ok && pieces_view(final(out)@) == pieces_view(old(out)@) + lines,
            Err(x) => r is Err && r->Err_0 == x,
        },
{
    let ghost uvs = triples_of(uv_attr);
    let ghost start = pieces_view(out@);
    assert(start + Seq::<PieceModel>::empty() =~= start);
    let three: bool = uv_attr.tuple_size() == 3;
    let mut vtxnum: usize = 0;
    while vtxnum < vertex_count
        invariant
            vtxnum <= vertex_count,
            uvs == triples_of(uv_attr),
            three == (uvs.tuple_size == 3),
            texture_lines(uvs, vtxnum as int) is Ok,
            pieces_view(out@) == start + texture_lines(uvs, vtxnum as int)->Ok_0,
        decreases vertex_count - vtxnum,
    {
        let ghost before = pieces_view(out@);
        let uv: &[Real64] = match read_lead(
            uv_attr,
            vtxnum,
            if three {
                3
            } else {
                2
            },
        ) {
            Ok(x) => x,
            Err(x) => {
                proof {
                    assert(texture_lines(uvs, vtxnum + 1) is Err);
                    lemma_texture_lines_prefix(uvs, vtxnum + 1, vertex_count as int);
                }
                return Err(x);
            },
        };
        if three {
            put_text(out, "vt ");
            put_spaced(out, uv);
            put_text(out, "\n");
        } else {
            put_text(out, "vt ");
            put(out, Piece::Double(uv[0]));
            put_text(out, " ");
            put(out, Piece::Double(uv[1]));
            put_text(out, " 0\n");
        }
        proof {
            let line = texture_line(uvs, vtxnum)->Ok_0;
            assert(pieces_view(out@) =~= before + line);
            assert(pieces_view(out@) =~= start + texture_lines(uvs, vtxnum + 1)->Ok_0);
        }
        vtxnum = vtxnum + 1;
    }
    Ok(())
}

/// Appends the line of a face.
fn put_face(out: &mut Vec<Piece>, prim: &GeoPolygon, have_uvs: bool) -> (r: Result<
    (),
    SchemaError,
>)
    ensures
        match face_line(prim@, have_uvs) {
            Ok(line) => r is Ok && pieces_view(final(out)@) == pieces_view(old(out)@) + line,
            Err(x) => r is Err && r->Err_0 == x,
        },
{
    let ghost corners = prim.vertices@;
    let ghost begin = pieces_view(out@);
    put_text(out, "f");
    let ghost start = pieces_view(out@);
    assert(start + Seq::<PieceModel>::empty() =~= start);
    let vtxcount: usize = prim.vertices.len();
    let mut i: usize = 0;
    while i < vtxcount
        invariant
            i <= vtxcount,
            vtxcount == prim.vertices@.len(),
            corners == prim.vertices@,
            start == begin.push(text("f")),
            face_corners(corners, have_uvs, i as int) is Ok,
            pieces_view(out@) == start + face_corners(corners, have_uvs, i as int)->Ok_0,
        decreases vtxcount - i,
    {
        let ghost before = pieces_view(out@);
        let vtx: GeoVertex = prim.vertices[(vtxcount - i) % vtxcount];
        if vtx.ptnum as u64 >= i64::MAX as u64 || (have_uvs && vtx.vtxnum as u64 >= i64::MAX
            as u64) {
            proof {
                assert(face_corners(corners, have_uvs, i + 1) is Err);
                lemma_face_corners_prefix(corners, have_uvs, i + 1, vtxcount as int);
            }
            return Err(SchemaError::OutOfRange);
        }
        put_text(out, " ");
        put(out, Piece::Int(vtx.ptnum as i64 + 1));
        if have_uvs {
            put_text(out, "/");
            put(out, Piece::Int(vtx.vtxnum as i64 + 1));
        }
        proof {
            let corner = face_corner(vtx, have_uvs)->Ok_0;
            assert(pieces_view(out@) =~= before + corner);
            assert(pieces_view(out@) =~= start + face_corners(corners, have_uvs, i + 1)->Ok_0);
        }
        i = i + 1;
    }
    put_text(out, "\n");
    proof {
        let c = face_corners(corners, have_uvs, vtxcount as int)->Ok_0;
        assert(pieces_view(out@) =~= begin + (seq![text("f")] + c + seq![text("\n")]));
    }
    Ok(())
}

/// The text of a geometry in OBJ, in pieces; its primitives, point
/// attributes and vertex attributes must have been read.
pub fn build_obj(geo_schema: &HoudiniGeoSchemaParser) -> (r: Result<Vec<Piece>, SchemaError>)
    requires
        geo_schema.primitives() is Some,
        geo_schema.point_attributes() is Some,
        geo_schema.vertex_attributes() is Some,
    ensures
        match obj_lines(
            geo_schema.header(),
            geo_schema.primitives()->0,
            geo_schema.point_attributes()->0,
            geo_schema.vertex_attributes()->0,
        ) {
            Ok(lines) => r is Ok && pieces_view(r->Ok_0@) == lines,
            Err(x) => r is Err && r->Err_0 == x,
        },
{
    let mut out: Vec<Piece> = Vec::new();
    assert(pieces_view(out@) =~= Seq::<PieceModel>::empty());
    let p_attr: &TupleGeoAttribute<Real64> = match geo_schema.point_attribute("P") {
        Some(GeoAttributeKind::Float64(x)) => x,
        _ => {
            return Err(SchemaError::WrongType);
        },
    };
    let cd_attr: Option<&TupleGeoAttribute<Real64>> = match geo_schema.point_attribute("Cd") {
        Some(GeoAttributeKind::Float64(x)) => Some(x),
        None => None,
        _ => {
            return Err(SchemaError::WrongType);
        },
    };
    match put_points(&mut out, p_attr, cd_attr, geo_schema.point_count()) {
        Ok(_) => {},
        Err(x) => {
            return Err(x);
        },
    }
    let ghost v = pieces_view(out@);
    assert(Seq::<PieceModel>::empty() + v =~= v);
    let uv_attr: Option<&TupleGeoAttribute<Real64>> = match geo_schema.vertex_attribute("uv") {
        Some(GeoAttributeKind::Float64(x)) => {
            let size: usize = x.tuple_size();
            if size == 3 || size == 2 {
                Some(x)
            } else {
                None
            }
        },
        _ => None,
    };
    let have_uvs: bool = match uv_attr {
        Some(uv) => {
            match put_textures(&mut out, uv, geo_schema.vertex_count()) {
                Ok(_) => {},
                Err(x) => {
                    return Err(x);
                },
            }
            true
        },
        None => {
            assert(v + Seq::<PieceModel>::empty() =~= v);
            false
        },
    };
    let polygons: &[GeoPolygon] = geo_schema.polygons();
    let ghost start = pieces_view(out@);
    let ghost models = polygons_view(polygons@);
    let ghost whole = obj_lines(
        geo_schema.header(),
        geo_schema.primitives()->0,
        geo_schema.point_attributes()->0,
        geo_schema.vertex_attributes()->0,
    );
    assert(whole == (match face_lines(models, have_uvs, models.len() as int) {
        Err(x) => Err::<Seq<PieceModel>, SchemaError>(x),
        Ok(f) => Ok(start + f),
    }));
    assert(start + Seq::<PieceModel>::empty() =~= start);
    let mut i: usize = 0;
    while i < polygons.len()
        invariant
            i <= polygons@.len(),
            models == polygons_view(polygons@),
            whole == obj_lines(
                geo_schema.header(),
                geo_schema.primitives()->0,
                geo_schema.point_attributes()->0,
                geo_schema.vertex_attributes()->0,
            ),
            whole == (match face_lines(models, have_uvs, models.len() as int) {
                Err(x) => Err::<Seq<PieceModel>, SchemaError>(x),
                Ok(f) => Ok(start + f),
            }),
            face_lines(models, have_uvs, i as int) is Ok,
            pieces_view(out@) == start + face_lines(models, have_uvs, i as int)->Ok_0,
        decreases polygons.len() - i,
    {
        let ghost before = pieces_view(out@);
        match put_face(&mut out, &polygons[i], have_uvs) {
            Ok(_) => {},
            Err(x) => {
                proof {
                    assert(face_lines(models, have_uvs, i + 1) is Err);
                    lemma_face_lines_prefix(models, have_uvs, i + 1, polygons@.len() as int);
                }
                return Err(x);
            },
        }
        proof {
            let line = face_line(models[i as int], have_uvs)->Ok_0;
            assert(pieces_view(out@) =~= start + face_lines(models, have_uvs, i + 1)->Ok_0);
        }
        i = i + 1;
    }
    Ok(out)
}

/// Reads what OBJ is made of, and makes its text, in pieces.
pub fn serialize_obj(geo_schema: &mut HoudiniGeoSchemaParser) -> (r: Result<
    Vec<Piece>,
    SchemaError,
>)
    ensures
        final(geo_schema).same_geometry(old(geo_schema)),
        match obj_pieces(old(geo_schema).root(), old(geo_schema).header()) {
            Ok(lines) => r is Ok && pieces_view(r->Ok_0@) == lines,
            Err(x) => r is Err && r->Err_0 == x,
        },
{
    match geo_schema.parse_primitives() {
        Ok(_) => {},
        Err(x) => {
            return Err(x);
        },
    }
    match geo_schema.parse_point_attributes() {
        Ok(_) => {},
        Err(x) => {
            return Err(x);
        },
    }
    match geo_schema.parse_vertex_attributes() {
        Ok(_) => {},
        Err(x) => {
            return Err(x);
        },
    }
    build_obj(geo_schema)
}

} // verus!
