use geoconverter::geo_struct::KeyValueEntry;
use geoconverter::geo_struct_serializer::to_json;
use geoconverter::obj_converter::serialize_obj;
use geoconverter::pieces::Piece;
use geoconverter::stl_converter::{serialize_stl, StlFacet, StlSolid};
use geoconverter::{HoudiniGeoSchemaParser, ReaderElement, Real32, Real64, SchemaError};
use geoconverter::UniformArrayType;

fn shown(pieces: &[Piece]) -> String {
    let mut out = String::new();
    for piece in pieces {
        match piece {
            Piece::Text(s) => out.push_str(s),
            Piece::Int(x) => out.push_str(&format!("{}", x)),
            Piece::Double(x) => out.push_str(&format!("{}", f64::from_bits(x.bits))),
            Piece::Single(x) => out.push_str(&format!("{}", f32::from_bits(x.bits))),
            Piece::Bool(x) => out.push_str(&format!("{}", x)),
        }
    }
    out
}

fn text(s: &str) -> ReaderElement {
    ReaderElement::Text(s.to_string())
}

fn whole(x: i64) -> ReaderElement {
    ReaderElement::Int(x)
}

fn number(x: f64) -> Real64 {
    Real64 { bits: x.to_bits() }
}

fn decimal(x: f64) -> ReaderElement {
    ReaderElement::Float(number(x))
}

fn arr(items: Vec<ReaderElement>) -> ReaderElement {
    ReaderElement::Array(items)
}

fn wholes(items: &[i64]) -> ReaderElement {
    arr(items.iter().map(|x| whole(*x)).collect())
}

#[test]
fn scalars_are_shown() {
    assert_eq!(shown(&to_json(&ReaderElement::Null)), "None");
    assert_eq!(shown(&to_json(&ReaderElement::Bool(true))), "true");
    assert_eq!(shown(&to_json(&whole(-12))), "-12");
    assert_eq!(shown(&to_json(&decimal(1.5))), "1.5");
    assert_eq!(shown(&to_json(&text("a b"))), "\"a b\"");
    assert_eq!(shown(&to_json(&arr(vec![]))), "[]");
    assert_eq!(shown(&to_json(&ReaderElement::KeyValueObject(vec![]))), "{}");
}

#[test]
fn uniform_arrays_are_shown_in_a_line() {
    let u = ReaderElement::UniformArray(UniformArrayType::UniformArrayTi16(vec![1, -2, 3]));
    assert_eq!(shown(&to_json(&u)), "[1, -2, 3]");
    let u = ReaderElement::UniformArray(UniformArrayType::UniformArrayTf32(vec![Real32 {
        bits: 0.5f32.to_bits(),
    }]));
    assert_eq!(shown(&to_json(&u)), "[0.5]");
    let u = ReaderElement::UniformArray(UniformArrayType::UniformArrayTbool(vec![true, false]));
    assert_eq!(shown(&to_json(&u)), "[true, false]");
    let u = ReaderElement::UniformArray(UniformArrayType::UniformArrayTu8(vec![]));
    assert_eq!(shown(&to_json(&u)), "[]");
}

#[test]
fn members_stand_in_lines_and_blocks() {
    let tree = arr(vec![whole(1), text("a"), wholes(&[2]), whole(3)]);
    assert_eq!(shown(&to_json(&tree)), "[\n  1, \"a\", \n  [\n    2\n  ],   \n  3\n]");
    // a block that comes first starts no line of its own
    let tree = arr(vec![wholes(&[2]), wholes(&[3])]);
    assert_eq!(
        shown(&to_json(&tree)),
        "[\n  [\n    2\n  ],   \n  [\n    3\n  ]  \n]"
    );
}

#[test]
fn twenty_members_stand_in_a_line() {
    let tree = wholes(&(0..45).collect::<Vec<i64>>());
    let first: Vec<String> = (0..20).map(|i| format!("{}, ", i)).collect();
    let second: Vec<String> = (20..40).map(|i| format!("{}, ", i)).collect();
    let expected = format!(
        "[\n  {}\n  {}\n  40, 41, 42, 43, 44\n]",
        first.concat(),
        second.concat()
    );
    assert_eq!(shown(&to_json(&tree)), expected);
}

#[test]
fn entries_stand_one_to_a_line() {
    let tree = ReaderElement::KeyValueObject(vec![
        KeyValueEntry { key: "a".to_string(), value: whole(1) },
        KeyValueEntry { key: "b".to_string(), value: wholes(&[2]) },
        KeyValueEntry { key: "c".to_string(), value: ReaderElement::Bool(false) },
    ]);
    assert_eq!(
        shown(&to_json(&tree)),
        "{\n  \"a\": 1, \n  \"b\":\n  [\n    2\n  ],   \n  \"c\": false\n}"
    );
}

#[test]
fn a_solid_is_written_facet_by_facet() {
    let zero = number(0.0);
    let one = number(1.0);
    let half = number(0.5);
    let solid = StlSolid {
        faces: vec![StlFacet {
            normal: [zero, zero, one],
            vertices: [[zero, zero, zero], [one, zero, zero], [half, one, number(-2.25)]],
        }],
    };
    assert_eq!(
        shown(&serialize_stl(&solid)),
        "solid\nfacet normal 0 0 1\nouter loop\nvertex 0 0 0\nvertex 1 0 0\nvertex 0.5 1 -2.25\nendloop\nendfacet\nendsolid\n"
    );
    assert_eq!(shown(&serialize_stl(&StlSolid { faces: vec![] })), "solid\nendsolid\n");
}

fn numeric(name: &str, size: i64, rows: Vec<Vec<f64>>) -> ReaderElement {
    arr(vec![
        arr(vec![text("type"), text("numeric"), text("name"), text(name)]),
        arr(vec![
            text("values"),
            arr(vec![
                text("size"),
                whole(size),
                text("storage"),
                text("fpreal32"),
                text("tuples"),
                arr(rows.into_iter().map(|r| arr(r.into_iter().map(decimal).collect())).collect()),
            ]),
        ]),
    ])
}

fn triangle(point_attributes: Vec<ReaderElement>, vertex_attributes: Vec<ReaderElement>) -> ReaderElement {
    arr(vec![
        text("pointcount"),
        whole(3),
        text("vertexcount"),
        whole(4),
        text("primitivecount"),
        whole(1),
        text("topology"),
        arr(vec![text("pointref"), arr(vec![text("indices"), wholes(&[2, 0, 1, 0])])]),
        text("attributes"),
        arr(vec![
            text("pointattributes"),
            arr(point_attributes),
            text("vertexattributes"),
            arr(vertex_attributes),
        ]),
        text("primitives"),
        arr(vec![arr(vec![
            arr(vec![text("type"), text("Polygon_run")]),
            arr(vec![text("startvertex"), whole(0), text("nvertices"), wholes(&[4])]),
        ])]),
    ])
}

fn positions() -> ReaderElement {
    numeric("P", 3, vec![vec![0.0, 0.0, 0.0], vec![1.0, 0.5, 0.0], vec![0.0, 1.0, -1.0]])
}

fn obj_of(root: &ReaderElement) -> Result<String, SchemaError> {
    let mut parser = HoudiniGeoSchemaParser::new(root).expect("header");
    serialize_obj(&mut parser).map(|p| shown(&p))
}

#[test]
fn faces_go_round_the_other_way() {
    // vertices 0 1 2 3 are points 2 0 1 0; the face goes 0 3 2 1
    assert_eq!(
        obj_of(&triangle(vec![positions()], vec![])).unwrap(),
        "v 0 0 0\nv 1 0.5 0\nv 0 1 -1\nf 3 1 2 1\n"
    );
}

#[test]
fn colours_and_texture_coordinates_are_written() {
    let colours = numeric("Cd", 3, vec![vec![1.0, 0.0, 0.0], vec![0.0, 1.0, 0.0], vec![0.0, 0.0, 1.0]]);
    let uv3 = numeric(
        "uv",
        3,
        vec![vec![0.0, 0.0, 0.0], vec![1.0, 0.0, 0.0], vec![1.0, 1.0, 0.0], vec![0.0, 1.0, 0.5]],
    );
    assert_eq!(
        obj_of(&triangle(vec![positions(), colours], vec![uv3])).unwrap(),
        "v 0 0 0 1 0 0\nv 1 0.5 0 0 1 0\nv 0 1 -1 0 0 1\nvt 0 0 0\nvt 1 0 0\nvt 1 1 0\nvt 0 1 0.5\nf 3/1 1/4 2/3 1/2\n"
    );
    let uv2 = numeric("uv", 2, vec![vec![0.0, 0.0], vec![1.0, 0.0], vec![1.0, 1.0], vec![0.0, 1.0]]);
    assert_eq!(
        obj_of(&triangle(vec![positions()], vec![uv2])).unwrap(),
        "v 0 0 0\nv 1 0.5 0\nv 0 1 -1\nvt 0 0 0\nvt 1 0 0\nvt 1 1 0\nvt 0 1 0\nf 3/1 1/4 2/3 1/2\n"
    );
    // texture coordinates of another size are left out
    let uv1 = numeric("uv", 1, vec![vec![0.0], vec![1.0], vec![1.0], vec![0.0]]);
    assert_eq!(
        obj_of(&triangle(vec![positions()], vec![uv1])).unwrap(),
        "v 0 0 0\nv 1 0.5 0\nv 0 1 -1\nf 3 1 2 1\n"
    );
}

#[test]
fn each_obj_error_has_its_input() {
    assert_eq!(obj_of(&triangle(vec![], vec![])), Err(SchemaError::WrongType));
    let few = numeric("P", 3, vec![vec![0.0, 0.0, 0.0]]);
    assert_eq!(obj_of(&triangle(vec![few], vec![])), Err(SchemaError::OutOfRange));
    let flat = numeric("P", 2, vec![vec![0.0, 0.0], vec![1.0, 0.5], vec![0.0, 1.0]]);
    assert_eq!(obj_of(&triangle(vec![flat], vec![])), Err(SchemaError::Inconsistent));
    let names = arr(vec![
        arr(vec![text("type"), text("string"), text("name"), text("Cd")]),
        arr(vec![
            text("strings"),
            arr(vec![text("red")]),
            text("indices"),
            arr(vec![
                text("size"),
                whole(1),
                text("storage"),
                text("int32"),
                text("arrays"),
                arr(vec![wholes(&[0, 0, 0])]),
            ]),
        ]),
    ]);
    assert_eq!(obj_of(&triangle(vec![positions(), names], vec![])), Err(SchemaError::WrongType));
    let uv = numeric("uv", 2, vec![vec![0.0, 0.0]]);
    assert_eq!(obj_of(&triangle(vec![positions()], vec![uv])), Err(SchemaError::OutOfRange));
    assert_eq!(obj_of(&arr(vec![
        text("pointcount"),
        whole(0),
        text("vertexcount"),
        whole(0),
        text("primitivecount"),
        whole(0),
    ])), Err(SchemaError::MissingKey));
}
