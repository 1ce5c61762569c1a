//! Triangles for STL: every polygon cut into a fan of facets.

use vstd::prelude::*;
use crate::geo_attributes::{
    attributes_of, AttributeModel, GeoAttribute, GeoAttributeKind, TupleGeoAttribute,
};
use crate::geo_struct::{object_get, Real64};
use crate::geo_struct::Value;
use crate::pieces::{pieces_view, put_spaced, put_text, spaced, text, Piece, PieceModel};
use crate::houdini_geo_schema::{
    polygons_of, polygons_view, GeoPolygon, GeoVertex, HoudiniGeoSchemaParser, Header, Polygon,
    SchemaError,
};

verus! {

/// A solid: its facets.
#[derive(Debug)]
pub struct StlSolid<T> {
    pub faces: Vec<StlFacet<T>>,
}

/// A facet: its normal and its three corners.
#[derive(Debug)]
pub struct StlFacet<T> {
    pub normal: [T; 3],
    pub vertices: [[T; 3]; 3],
}

/// The model of a facet: the normal, then the three corners.
pub struct Facet {
    pub normal: Seq<Real64>,
    pub first: Seq<Real64>,
    pub second: Seq<Real64>,
    pub third: Seq<Real64>,
}

impl View for StlFacet<Real64> {
    type V = Facet;

    open spec fn view(&self) -> Facet {
        Facet {
            normal: self.normal@,
            first: self.vertices@[0]@,
            second: self.vertices@[1]@,
            third: self.vertices@[2]@,
        }
    }
}

/// The models of a list of facets.
pub open spec fn facets_view(faces: Seq<StlFacet<Real64>>) -> Seq<Facet> {
    Seq::new(faces.len(), |i: int| faces[i]@)
}

/// The three scalars of item `number` of an attribute of tuples of
/// three.
pub open spec fn triple(tuple_size: usize, data: Seq<Real64>, number: usize) -> Result<
    Seq<Real64>,
    SchemaError,
> {
    if tuple_size != 3 {
        Err(SchemaError::Inconsistent)
    } else if number * 3 + 3 > data.len() {
        Err(SchemaError::OutOfRange)
    } else {
        Ok(data.subrange(number * 3, number * 3 + 3))
    }
}

/// An attribute of tuples of reals: the size of a tuple and the scalars.
pub struct Triples {
    pub tuple_size: usize,
    pub data: Seq<Real64>,
}

/// The facets of the fan of a polygon up to its corner `upto`: one for
/// each corner from the third on, made of the first corner, the corner
/// before and the corner itself.
pub open spec fn fan(
    corners: Seq<GeoVertex>,
    upto: int,
    points: Triples,
    normal: Seq<Real64>,
) -> Result<Seq<Facet>, SchemaError>
    decreases upto,
{
    if upto <= 2 {
        Ok(Seq::empty())
    } else {
        match fan(corners, upto - 1, points, normal) {
            Err(x) => Err(x),
            Ok(head) => match triple(points.tuple_size, points.data, corners[upto - 1].ptnum) {
                Err(x) => Err(x),
                Ok(p) => Ok(
                    head.push(
                        Facet {
                            normal,
                            first: triple(points.tuple_size, points.data, corners[0].ptnum)->Ok_0,
                            second: triple(
                                points.tuple_size,
                                points.data,
                                corners[upto - 2].ptnum,
                            )->Ok_0,
                            third: p,
                        },
                    ),
                ),
            },
        }
    }
}

/// The normal of a primitive: that of the attribute, or zero where
/// there is none.
pub open spec fn normal_of(normals: Option<Triples>, number: usize) -> Result<
    Seq<Real64>,
    SchemaError,
> {
    match normals {
        Some(n) => triple(n.tuple_size, n.data, number),
        None => Ok(seq![Real64 { bits: 0 }, Real64 { bits: 0 }, Real64 { bits: 0 }]),
    }
}

/// The facets of a polygon, which must have two corners at least: the
/// points of the first two corners are read, then the normal, then the
/// fan.
pub open spec fn polygon_facets(polygon: Polygon, points: Triples, normals: Option<Triples>) -> Result<
    Seq<Facet>,
    SchemaError,
> {
    if polygon.vertices.len() < 2 {
        Err(SchemaError::Inconsistent)
    } else {
        match triple(points.tuple_size, points.data, polygon.vertices[0].ptnum) {
            Err(x) => Err(x),
            Ok(_) => match triple(points.tuple_size, points.data, polygon.vertices[1].ptnum) {
                Err(x) => Err(x),
                Ok(_) => match normal_of(normals, polygon.number) {
                    Err(x) => Err(x),
                    Ok(n) => fan(polygon.vertices, polygon.vertices.len() as int, points, n),
                },
            },
        }
    }
}

/// The facets of the first `upto` polygons.
pub open spec fn solid_facets(
    polygons: Seq<Polygon>,
    upto: int,
    points: Triples,
    normals: Option<Triples>,
) -> Result<Seq<Facet>, SchemaError>
    decreases upto,
{
    if upto <= 0 {
        Ok(Seq::empty())
    } else {
        match solid_facets(polygons, upto - 1, points, normals) {
            Err(x) => Err(x),
            Ok(head) => match polygon_facets(polygons[upto - 1], points, normals) {
                Err(x) => Err(x),
                Ok(f) => Ok(head + f),
            },
        }
    }
}

/// The attribute of tuples of reals under a name, if there is one.
pub open spec fn reals_named(
    attributes: Seq<(Seq<char>, AttributeModel)>,
    name: Seq<char>,
) -> Option<Triples> {
    match object_get(attributes, name) {
        Some(AttributeModel::Reals { tuple_size, reals }) => Some(
            Triples { tuple_size, data: reals },
        ),
        _ => None,
    }
}

/// The three scalars of item `number`.
fn read_triple(attr: &TupleGeoAttribute<Real64>, number: usize) -> (r: Result<
    [Real64; 3],
    SchemaError,
>)
    ensures
        match triple(attr.width(), attr.scalars(), number) {
            Ok(t) => r is Ok && r->Ok_0@ == t,
            Err(x) => r is Err && r->Err_0 == x,
        },
{
    if attr.tuple_size() != 3 {
        return Err(SchemaError::Inconsistent);
    }
    let count: usize = attr.len();
    if number >= count {
        return Err(SchemaError::OutOfRange);
    }
    let v: &[Real64] = attr.value(number);
    let t: [Real64; 3] = [v[0], v[1], v[2]];
    assert(t@ =~= attr.scalars().subrange(number * 3, number * 3 + 3));
    Ok(t)
}

/// The facets of a polygon.
fn polygon_fan(
    poly: &GeoPolygon,
    p_attr: &TupleGeoAttribute<Real64>,
    n_attr: Option<&TupleGeoAttribute<Real64>>,
    stl_faces: &mut Vec<StlFacet<Real64>>,
) -> (r: Result<(), SchemaError>)
    ensures
        match polygon_facets(
            poly@,
            Triples { tuple_size: p_attr.width(), data: p_attr.scalars() },
            match n_attr {
                Some(n) => Some(Triples { tuple_size: n.width(), data: n.scalars() }),
                None => None,
            },
        ) {
            Ok(f) => r is Ok && facets_view(final(stl_faces)@) == facets_view(old(stl_faces)@) + f,
            Err(x) => r is Err && r->Err_0 == x,
        },
{
    let ghost points = Triples { tuple_size: p_attr.width(), data: p_attr.scalars() };
    if poly.vertices.len() < 2 {
        return Err(SchemaError::Inconsistent);
    }
    let first_p: [Real64; 3] = match read_triple(p_attr, poly.vertices[0].ptnum) {
        Ok(x) => x,
        Err(x) => {
            return Err(x);
        },
    };
    let mut prev_p: [Real64; 3] = match read_triple(p_attr, poly.vertices[1].ptnum) {
        Ok(x) => x,
        Err(x) => {
            return Err(x);
        },
    };
    let n: [Real64; 3] = match n_attr {
        Some(n_attr) => match read_triple(n_attr, poly.number) {
            Ok(x) => x,
            Err(x) => {
                return Err(x);
            },
        },
        None => {
            let zero: [Real64; 3] = [Real64 { bits: 0 }, Real64 { bits: 0 }, Real64 { bits: 0 }];
            assert(zero@ =~= seq![Real64 { bits: 0 }, Real64 { bits: 0 }, Real64 { bits: 0 }]);
            zero
        },
    };
    let ghost before = facets_view(stl_faces@);
    let ghost normals = match n_attr {
        Some(n) => Some(Triples { tuple_size: n.width(), data: n.scalars() }),
        None => None,
    };
    let mut k: usize = 2;
    assert(before + Seq::<Facet>::empty() =~= before);
    while k < poly.vertices.len()
        invariant
            2 <= k <= poly.vertices@.len(),
            points == (Triples { tuple_size: p_attr.width(), data: p_attr.scalars() }),
            normals == (match n_attr {
                Some(n) => Some(Triples { tuple_size: n.width(), data: n.scalars() }),
                None => None,
            }),
            polygon_facets(poly@, points, normals) == fan(
                poly.vertices@,
                poly.vertices@.len() as int,
                points,
                n@,
            ),
            triple(points.tuple_size, points.data, poly.vertices@[0].ptnum) == Ok::<
                Seq<Real64>,
                SchemaError,
            >(first_p@),
            triple(points.tuple_size, points.data, poly.vertices@[k - 1].ptnum) == Ok::<
                Seq<Real64>,
                SchemaError,
            >(prev_p@),
            fan(poly.vertices@, k as int, points, n@) is Ok,
            facets_view(stl_faces@) == before + fan(poly.vertices@, k as int, points, n@)->Ok_0,
        decreases poly.vertices.len() - k,
    {
        let p: [Real64; 3] = match read_triple(p_attr, poly.vertices[k].ptnum) {
            Ok(x) => x,
            Err(x) => {
                proof {
                    assert(fan(poly.vertices@, k + 1, points, n@) is Err);
                    lemma_fan_prefix(poly.vertices@, k + 1, poly.vertices@.len() as int, points, n@);
                }
                return Err(x);
            },
        };
        let ghost so_far = facets_view(stl_faces@);
        let facet = StlFacet { normal: [n[0], n[1], n[2]], vertices: [first_p, prev_p, p] };
        proof {
            assert(facet.normal@ =~= n@);
        }
        stl_faces.push(facet);
        assert(facets_view(stl_faces@) =~= so_far.push(facet@));
        assert(facets_view(stl_faces@) =~= before + fan(poly.vertices@, k + 1, points, n@)->Ok_0);
        prev_p = p;
        k = k + 1;
    }
    Ok(())
}

/// Where the fan fails up to some corner, it fails for the polygon.
pub proof fn lemma_fan_prefix(
    corners: Seq<GeoVertex>,
    k: int,
    upto: int,
    points: Triples,
    normal: Seq<Real64>,
)
    requires
        k <= upto,
        fan(corners, k, points, normal) is Err,
    ensures
        fan(corners, upto, points, normal) == fan(corners, k, points, normal),
    decreases upto - k,
{
    if k < upto {
        lemma_fan_prefix(corners, k, upto - 1, points, normal);
    }
}

/// Where the facets fail up to some polygon, they fail for the solid.
pub proof fn lemma_solid_prefix(
    polygons: Seq<Polygon>,
    k: int,
    upto: int,
    points: Triples,
    normals: Option<Triples>,
)
    requires
        k <= upto,
        solid_facets(polygons, k, points, normals) is Err,
    ensures
        solid_facets(polygons, upto, points, normals) == solid_facets(polygons, k, points, normals),
    decreases upto - k,
{
    if k < upto {
        lemma_solid_prefix(polygons, k, upto - 1, points, normals);
    }
}

/// The solid of a geometry whose point attributes, primitive attributes
/// and primitives were read: the fans of its polygons, over the points
/// `P`, with the normals `N` of the primitives where that attribute is
/// one of reals. Without an attribute `P` of reals there is no solid.
pub fn build_stl_solid(geo_schema: &HoudiniGeoSchemaParser) -> (r: Result<
    StlSolid<Real64>,
    SchemaError,
>)
    requires
        geo_schema.point_attributes() is Some,
        geo_schema.primitive_attributes() is Some,
        geo_schema.primitives() is Some,
    ensures
        match reals_named(geo_schema.point_attributes()->0, "P"@) {
            None => r is Err && r->Err_0 == SchemaError::WrongType,
            Some(points) => match solid_facets(
                geo_schema.primitives()->0,
                geo_schema.primitives()->0.len() as int,
                points,
                reals_named(geo_schema.primitive_attributes()->0, "N"@),
            ) {
                Ok(f) => r is Ok && facets_view(r->Ok_0.faces@) == f,
                Err(x) => r is Err && r->Err_0 == x,
            },
        },
{
    let mut stl_faces: Vec<StlFacet<Real64>> = Vec::new();
    let p_attr: &TupleGeoAttribute<Real64> = match geo_schema.point_attribute("P") {
        Some(GeoAttributeKind::Float64(x)) => x,
        _ => {
            return Err(SchemaError::WrongType);
        },
    };
    let n_attr: Option<&TupleGeoAttribute<Real64>> = match geo_schema.primitive_attribute("N") {
        Some(GeoAttributeKind::Float64(x)) => Some(x),
        _ => None,
    };
    let ghost points = Triples { tuple_size: p_attr.width(), data: p_attr.scalars() };
    let ghost normals = reals_named(geo_schema.primitive_attributes()->0, "N"@);
    let polygons: &[GeoPolygon] = geo_schema.polygons();
    assert(facets_view(stl_faces@) =~= Seq::<Facet>::empty());
    let mut i: usize = 0;
    while i < polygons.len()
        invariant
            i <= polygons@.len(),
            points == (Triples { tuple_size: p_attr.width(), data: p_attr.scalars() }),
            reals_named(geo_schema.point_attributes()->0, "P"@) == Some(points),
            normals == reals_named(geo_schema.primitive_attributes()->0, "N"@),
            polygons_view(polygons@) == geo_schema.primitives()->0,
            normals == (match n_attr {
                Some(n) => Some(Triples { tuple_size: n.width(), data: n.scalars() }),
                None => None,
            }),
            solid_facets(polygons_view(polygons@), i as int, points, normals) == Ok::<
                Seq<Facet>,
                SchemaError,
            >(facets_view(stl_faces@)),
        decreases polygons.len() - i,
    {
        match polygon_fan(&polygons[i], p_attr, n_attr, &mut stl_faces) {
            Ok(_) => {},
            Err(x) => {
                proof {
                    assert(solid_facets(polygons_view(polygons@), i + 1, points, normals) is Err);
                    lemma_solid_prefix(
                        polygons_view(polygons@),
                        i + 1,
                        polygons@.len() as int,
                        points,
                        normals,
                    );
                }
                return Err(x);
            },
        }
        i = i + 1;
    }
    Ok(StlSolid { faces: stl_faces })
}

/// The facets of the solid of a tree with the given vertex-to-point
/// map: its point attributes, its primitive attributes and its
/// primitives are read, in this order, then the solid is made.
pub open spec fn stl_facets(root: Value, indices: Seq<usize>) -> Result<Seq<Facet>, SchemaError> {
    match attributes_of(root, "pointattributes"@, "pointcount"@) {
        Err(x) => Err(x),
        Ok(point_attributes) => match attributes_of(
            root,
            "primitiveattributes"@,
            "primitivecount"@,
        ) {
            Err(x) => Err(x),
            Ok(primitive_attributes) => match polygons_of(root, indices) {
                Err(x) => Err(x),
                Ok(polygons) => match reals_named(point_attributes, "P"@) {
                    None => Err(SchemaError::WrongType),
                    Some(points) => solid_facets(
                        polygons,
                        polygons.len() as int,
                        points,
                        reals_named(primitive_attributes, "N"@),
                    ),
                },
            },
        },
    }
}

/// Reads what a solid is made of, and makes the solid.
pub fn create_stl_solid(geo_schema: &mut HoudiniGeoSchemaParser) -> (r: Result<
    StlSolid<Real64>,
    SchemaError,
>)
    ensures
        final(geo_schema).same_geometry(old(geo_schema)),
        final(geo_schema).vertex_attributes() == old(geo_schema).vertex_attributes(),
        r is Ok ==> final(geo_schema).point_attributes() is Some,
        r is Ok ==> final(geo_schema).primitive_attributes() is Some,
        r is Ok ==> final(geo_schema).primitives() is Some,
        match stl_facets(old(geo_schema).root(), old(geo_schema).header().indices) {
            Ok(f) => r is Ok && facets_view(r->Ok_0.faces@) == f,
            Err(x) => r is Err && r->Err_0 == x,
        },
{
    match geo_schema.parse_point_attributes() {
        Ok(_) => {},
        Err(x) => {
            return Err(x);
        },
    }
    match geo_schema.parse_primitive_attributes() {
        Ok(_) => {},
        Err(x) => {
            return Err(x);
        },
    }
    match geo_schema.parse_primitives() {
        Ok(_) => {},
        Err(x) => {
            return Err(x);
        },
    }
    build_stl_solid(geo_schema)
}

/// A corner of a facet as ASCII STL writes it.
pub open spec fn corner_pieces(corner: Seq<Real64>) -> Seq<PieceModel> {
    seq![text("vertex ")] + spaced(corner) + seq![text("\n")]
}

/// A facet as ASCII STL writes it: the normal, and the loop of its
/// three corners.
pub open spec fn facet_pieces(facet: Facet) -> Seq<PieceModel> {
    seq![text("facet normal ")] + spaced(facet.normal) + seq![text("\n"), text("outer loop\n")]
        + corner_pieces(facet.first) + corner_pieces(facet.second) + corner_pieces(facet.third)
        + seq![text("endloop\nendfacet\n")]
}

/// The first `upto` facets as ASCII STL writes them.
pub open spec fn facets_pieces(facets: Seq<Facet>, upto: int) -> Seq<PieceModel>
    decreases upto,
{
    if upto <= 0 {
        Seq::empty()
    } else {
        facets_pieces(facets, upto - 1) + facet_pieces(facets[upto - 1])
    }
}

/// A solid as ASCII STL writes it.
pub open spec fn solid_pieces(facets: Seq<Facet>) -> Seq<PieceModel> {
    seq![text("solid\n")] + facets_pieces(facets, facets.len() as int) + seq![text("endsolid\n")]
}

/// Appends a corner.
fn put_corner(out: &mut Vec<Piece>, corner: &[Real64; 3])
    ensures
        pieces_view(final(out)@) == pieces_view(old(out)@) + corner_pieces(corner@),
{
    put_text(out, "vertex ");
    put_spaced(out, corner.as_slice());
    put_text(out, "\n");
    assert(pieces_view(out@) =~= pieces_view(old(out)@) + corner_pieces(corner@));
}

/// The text of a solid in ASCII STL, in pieces.
pub fn serialize_stl(stl_solid: &StlSolid<Real64>) -> (r: Vec<Piece>)
    ensures
        pieces_view(r@) == solid_pieces(facets_view(stl_solid.faces@)),
{
    let mut out: Vec<Piece> = Vec::new();
    put_text(&mut out, "solid\n");
    let ghost facets = facets_view(stl_solid.faces@);
    let ghost start = pieces_view(out@);
    assert(start =~= seq![text("solid\n")]);
    assert(start + Seq::<PieceModel>::empty() =~= start);
    let mut i: usize = 0;
    while i < stl_solid.faces.len()
        invariant
            i <= stl_solid.faces@.len(),
            facets == facets_view(stl_solid.faces@),
            pieces_view(out@) == start + facets_pieces(facets, i as int),
        decreases stl_solid.faces.len() - i,
    {
        let facet: &StlFacet<Real64> = &stl_solid.faces[i];
        let ghost before = pieces_view(out@);
        put_text(&mut out, "facet normal ");
        put_spaced(&mut out, facet.normal.as_slice());
        put_text(&mut out, "\n");
        put_text(&mut out, "outer loop\n");
        put_corner(&mut out, &facet.vertices[0]);
        put_corner(&mut out, &facet.vertices[1]);
        put_corner(&mut out, &facet.vertices[2]);
        put_text(&mut out, "endloop\nendfacet\n");
        assert(pieces_view(out@) =~= before + facet_pieces(facets[i as int]));
        assert(pieces_view(out@) =~= start + facets_pieces(facets, i + 1));
        i = i + 1;
    }
    put_text(&mut out, "endsolid\n");
    assert(pieces_view(out@) =~= solid_pieces(facets));
    out
}

} // verus!
