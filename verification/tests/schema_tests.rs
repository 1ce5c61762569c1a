use geoconverter::geo_attributes::{
    parse_attributes, parse_rawpagedata, parse_values, GeoAttribute, GeoAttributeKind,
    TokenGeoAttribute, TupleGeoAttribute,
};
use geoconverter::geo_struct::KeyValueEntry;
use geoconverter::houdini_geo_schema::{
    get_from_any_kv_array, get_from_kv_array, has_prefix, has_suffix, index_list_of,
    read_polygons, same_text, GeoVertex,
};
use geoconverter::stl_converter::{build_stl_solid, create_stl_solid};
use geoconverter::{HoudiniGeoSchemaParser, ReaderElement, Real32, Real64, SchemaError};
use geoconverter::UniformArrayType;

fn text(s: &str) -> ReaderElement {
    ReaderElement::Text(s.to_string())
}

fn whole(x: i64) -> ReaderElement {
    ReaderElement::Int(x)
}

fn real_of(x: f64) -> ReaderElement {
    ReaderElement::Float(Real64 { bits: x.to_bits() })
}

fn arr(items: Vec<ReaderElement>) -> ReaderElement {
    ReaderElement::Array(items)
}

fn wholes(items: &[i64]) -> ReaderElement {
    arr(items.iter().map(|x| whole(*x)).collect())
}

fn values_of(attr: &TupleGeoAttribute<Real64>, number: usize) -> Vec<f64> {
    attr.value(number).iter().map(|r| f64::from_bits(r.bits)).collect()
}

#[test]
fn a_key_is_found_in_a_flat_array() {
    let kv = arr(vec![text("a"), whole(1), text("b"), whole(2), text("a"), whole(3)]);
    assert_eq!(format!("{:?}", get_from_kv_array(&kv, "a")), "Ok(Some(Int(1)))");
    assert_eq!(format!("{:?}", get_from_kv_array(&kv, "b")), "Ok(Some(Int(2)))");
    assert_eq!(format!("{:?}", get_from_kv_array(&kv, "c")), "Ok(None)");
    assert_eq!(format!("{:?}", get_from_any_kv_array(&kv, &["c", "b"])), "Ok(Some(Int(2)))");
    assert_eq!(format!("{:?}", get_from_any_kv_array(&kv, &["b", "a"])), "Ok(Some(Int(1)))");
    assert_eq!(format!("{:?}", get_from_any_kv_array(&kv, &[])), "Ok(None)");
    assert_eq!(format!("{:?}", get_from_kv_array(&arr(vec![]), "a")), "Ok(None)");
}

#[test]
fn a_value_is_never_taken_for_a_key() {
    let kv = arr(vec![text("x"), text("a"), text("a"), whole(2)]);
    assert_eq!(format!("{:?}", get_from_kv_array(&kv, "a")), "Ok(Some(Int(2)))");
    // a value can be of any kind
    let kv = arr(vec![text("x"), whole(9), text("a"), whole(2)]);
    assert_eq!(format!("{:?}", get_from_kv_array(&kv, "a")), "Ok(Some(Int(2)))");
}

#[test]
fn a_key_without_a_value_finds_nothing() {
    let kv = arr(vec![text("x"), whole(9), text("a")]);
    assert_eq!(format!("{:?}", get_from_kv_array(&kv, "a")), "Ok(None)");
}

#[test]
fn a_malformed_container_is_an_error() {
    assert_eq!(get_from_kv_array(&whole(1), "a").err(), Some(SchemaError::MalformedContainer));
    let kv = arr(vec![whole(1), whole(2), text("a"), whole(3)]);
    assert_eq!(get_from_kv_array(&kv, "a").err(), Some(SchemaError::MalformedContainer));
    // keys after the one found are not looked at
    let kv = arr(vec![text("a"), whole(3), whole(1), whole(2)]);
    assert_eq!(format!("{:?}", get_from_kv_array(&kv, "a")), "Ok(Some(Int(3)))");
    assert_eq!(get_from_kv_array(&kv, "b").err(), Some(SchemaError::MalformedContainer));
}

#[test]
fn texts_are_compared() {
    assert!(same_text("abc", "abc"));
    assert!(!same_text("abc", "abd"));
    assert!(!same_text("abc", "ab"));
    assert!(same_text("", ""));
    assert!(same_text("gr\u{fc}n", "gr\u{fc}n"));
    assert!(has_prefix("fpreal32", "fpreal"));
    assert!(has_prefix("fpreal", "fpreal"));
    assert!(!has_prefix("fprea", "fpreal"));
    assert!(!has_prefix("int32", "fpreal"));
    assert!(has_prefix("anything", ""));
    assert!(has_suffix("Polygon_run", "_run"));
    assert!(has_suffix("_run", "_run"));
    assert!(!has_suffix("run", "_run"));
    assert!(!has_suffix("Polygon_runs", "_run"));
    assert!(has_suffix("\u{e9}_run", "_run"));
}

#[test]
fn lists_of_indices_are_read() {
    assert_eq!(index_list_of(&wholes(&[0, 5, 7])), Ok(vec![0, 5, 7]));
    assert_eq!(index_list_of(&wholes(&[])), Ok(vec![]));
    let u = ReaderElement::UniformArray(UniformArrayType::UniformArrayTu16(vec![1, 65535]));
    assert_eq!(index_list_of(&u), Ok(vec![1, 65535]));
    let u = ReaderElement::UniformArray(UniformArrayType::UniformArrayTi8(vec![1, 127]));
    assert_eq!(index_list_of(&u), Ok(vec![1, 127]));
    let u = ReaderElement::UniformArray(UniformArrayType::UniformArrayTi32(vec![1, -1]));
    assert_eq!(index_list_of(&u), Err(SchemaError::OutOfRange));
    assert_eq!(index_list_of(&wholes(&[0, -1])), Err(SchemaError::OutOfRange));
    assert_eq!(index_list_of(&arr(vec![whole(0), real_of(1.0)])), Err(SchemaError::WrongType));
    assert_eq!(index_list_of(&arr(vec![whole(-1), real_of(1.0)])), Err(SchemaError::WrongType));
    assert_eq!(index_list_of(&text("x")), Err(SchemaError::WrongType));
    let u = ReaderElement::UniformArray(UniformArrayType::UniformArrayTbool(vec![true]));
    assert_eq!(index_list_of(&u), Err(SchemaError::WrongType));
}

fn geometry(extra: Vec<ReaderElement>) -> ReaderElement {
    let mut root = vec![
        text("fileversion"),
        text("18.0"),
        text("pointcount"),
        whole(5),
        text("vertexcount"),
        whole(7),
        text("primitivecount"),
        whole(2),
        text("topology"),
        arr(vec![text("pointref"), arr(vec![text("indices"), wholes(&[0, 1, 2, 3, 0, 2, 4])])]),
    ];
    root.extend(extra);
    arr(root)
}

#[test]
fn the_header_is_read() {
    let root = geometry(vec![]);
    let parser = HoudiniGeoSchemaParser::new(&root).expect("header");
    assert_eq!(parser.point_count(), 5);
    assert_eq!(parser.vertex_count(), 7);
    assert_eq!(parser.primitive_count(), 2);
    assert_eq!(parser.mapped_vertex_count(), 7);
    assert_eq!(parser.vtx_to_ptnum(3), 3);
    assert_eq!(parser.vtx_to_ptnum(6), 4);
    assert!(!parser.has_point_attributes());
    assert!(!parser.has_vertex_attributes());
    assert!(!parser.has_primitive_attributes());
    assert!(!parser.has_polygons());
}

#[test]
fn a_header_without_topology_maps_no_vertex() {
    let root = arr(vec![
        text("pointcount"),
        whole(0),
        text("vertexcount"),
        whole(0),
        text("primitivecount"),
        whole(0),
    ]);
    let parser = HoudiniGeoSchemaParser::new(&root).expect("header");
    assert_eq!(parser.mapped_vertex_count(), 0);
    let root = arr(vec![
        text("topology"),
        arr(vec![text("pointref"), arr(vec![])]),
        text("pointcount"),
        whole(0),
        text("vertexcount"),
        whole(0),
        text("primitivecount"),
        whole(0),
    ]);
    let parser = HoudiniGeoSchemaParser::new(&root).expect("header");
    assert_eq!(parser.mapped_vertex_count(), 0);
}

fn header_error(root: ReaderElement) -> SchemaError {
    match HoudiniGeoSchemaParser::new(&root) {
        Ok(_) => panic!("a header was read"),
        Err(e) => e,
    }
}

#[test]
fn each_header_error_has_its_input() {
    assert_eq!(header_error(whole(1)), SchemaError::MalformedContainer);
    assert_eq!(header_error(arr(vec![])), SchemaError::MissingKey);
    assert_eq!(
        header_error(arr(vec![text("primitivecount"), whole(1), text("pointcount"), whole(1)])),
        SchemaError::MissingKey
    );
    assert_eq!(
        header_error(arr(vec![text("primitivecount"), real_of(1.0)])),
        SchemaError::WrongType
    );
    assert_eq!(header_error(arr(vec![text("primitivecount"), whole(-1)])), SchemaError::OutOfRange);
    assert_eq!(
        header_error(arr(vec![
            text("topology"),
            arr(vec![text("pointref"), arr(vec![text("indices"), text("x")])]),
        ])),
        SchemaError::WrongType
    );
    assert_eq!(
        header_error(arr(vec![text("topology"), whole(3)])),
        SchemaError::MalformedContainer
    );
}

fn polygon_block(kind: &str, payload: Vec<ReaderElement>) -> ReaderElement {
    arr(vec![arr(vec![text("type"), text(kind)]), arr(payload)])
}

fn corners(polys: &[geoconverter::houdini_geo_schema::GeoPolygon]) -> Vec<(usize, Vec<(usize, usize)>)> {
    polys
        .iter()
        .map(|p| (p.number, p.vertices.iter().map(|v| (v.ptnum, v.vtxnum)).collect()))
        .collect()
}

#[test]
fn polygons_are_read_from_run_lengths() {
    let indices: Vec<usize> = vec![10, 11, 12, 13, 14, 15, 16, 17, 18, 19];
    let root = arr(vec![
        text("primitives"),
        arr(vec![polygon_block(
            "Polygon_run",
            vec![text("startvertex"), whole(1), text("nvertices_rle"), wholes(&[3, 2, 2, 1])],
        )]),
    ]);
    let polys = read_polygons(&root, &indices).expect("polygons");
    assert_eq!(
        corners(&polys),
        vec![
            (0, vec![(11, 1), (12, 2), (13, 3)]),
            (1, vec![(14, 4), (15, 5), (16, 6)]),
            (2, vec![(17, 7), (18, 8)]),
        ]
    );
    assert_eq!(polys[0].vertices[0], GeoVertex { ptnum: 11, vtxnum: 1 });
}

#[test]
fn polygons_are_read_from_plain_counts_and_aliases() {
    let indices: Vec<usize> = vec![5, 4, 3, 2, 1, 0];
    let root = arr(vec![
        text("primitives"),
        arr(vec![polygon_block(
            "p_r",
            vec![
                text("s_v"),
                whole(0),
                text("n_v"),
                ReaderElement::UniformArray(UniformArrayType::UniformArrayTu8(vec![2, 0, 4])),
            ],
        )]),
    ]);
    let polys = read_polygons(&root, &indices).expect("polygons");
    assert_eq!(
        corners(&polys),
        vec![(0, vec![(5, 0), (4, 1)]), (1, vec![]), (2, vec![(3, 2), (2, 3), (1, 4), (0, 5)])]
    );
}

#[test]
fn other_primitives_are_passed_over_with_their_numbers() {
    let indices: Vec<usize> = vec![0, 1, 2, 3, 4, 5];
    let root = arr(vec![
        text("primitives"),
        arr(vec![
            polygon_block("Sphere", vec![]),
            polygon_block("Volume_run", vec![text("nprimitives"), whole(4)]),
            arr(vec![text("not a pair")]),
            polygon_block(
                "Polygon_run",
                vec![text("startvertex"), whole(0), text("nvertices"), wholes(&[3])],
            ),
            polygon_block("Tube_run", vec![text("n_p"), whole(2)]),
            polygon_block(
                "Polygon_run",
                vec![text("startvertex"), whole(3), text("nvertices_rle"), wholes(&[3, 1])],
            ),
        ]),
    ]);
    let polys = read_polygons(&root, &indices).expect("polygons");
    assert_eq!(
        corners(&polys),
        vec![(5, vec![(0, 0), (1, 1), (2, 2)]), (8, vec![(3, 3), (4, 4), (5, 5)])]
    );
}

fn polygons_error(blocks: Vec<ReaderElement>, indices: Vec<usize>) -> SchemaError {
    let root = arr(vec![text("primitives"), arr(blocks)]);
    match read_polygons(&root, &indices) {
        Ok(p) => panic!("polygons were read: {:?}", p),
        Err(e) => e,
    }
}

#[test]
fn each_primitive_error_has_its_input() {
    let three: Vec<usize> = vec![0, 1, 2];
    assert_eq!(read_polygons(&arr(vec![]), &three).err(), Some(SchemaError::MissingKey));
    assert_eq!(
        read_polygons(&arr(vec![text("primitives"), whole(1)]), &three).err(),
        Some(SchemaError::WrongType)
    );
    assert_eq!(polygons_error(vec![whole(1)], three.clone()), SchemaError::WrongType);
    assert_eq!(
        polygons_error(vec![arr(vec![arr(vec![]), arr(vec![])])], three.clone()),
        SchemaError::MissingKey
    );
    assert_eq!(
        polygons_error(vec![arr(vec![arr(vec![text("type"), whole(1)]), arr(vec![])])], three.clone()),
        SchemaError::WrongType
    );
    assert_eq!(
        polygons_error(vec![polygon_block("Polygon_run", vec![])], three.clone()),
        SchemaError::MissingKey
    );
    assert_eq!(
        polygons_error(
            vec![polygon_block("Polygon_run", vec![text("startvertex"), whole(0)])],
            three.clone()
        ),
        SchemaError::MissingKey
    );
    assert_eq!(
        polygons_error(
            vec![polygon_block(
                "Polygon_run",
                vec![text("startvertex"), whole(-1), text("nvertices"), wholes(&[3])]
            )],
            three.clone()
        ),
        SchemaError::OutOfRange
    );
    // a vertex that the map does not hold
    assert_eq!(
        polygons_error(
            vec![polygon_block(
                "Polygon_run",
                vec![text("startvertex"), whole(1), text("nvertices"), wholes(&[3])]
            )],
            three.clone()
        ),
        SchemaError::OutOfRange
    );
    // a run-length list that ends with half a pair
    assert_eq!(
        polygons_error(
            vec![polygon_block(
                "Polygon_run",
                vec![text("startvertex"), whole(0), text("nvertices_rle"), wholes(&[3, 1, 2])]
            )],
            three.clone()
        ),
        SchemaError::Inconsistent
    );
    assert_eq!(
        polygons_error(
            vec![polygon_block(
                "Polygon_run",
                vec![text("startvertex"), whole(0), text("nvertices_rle"), text("x")]
            )],
            three.clone()
        ),
        SchemaError::WrongType
    );
    assert_eq!(
        polygons_error(vec![polygon_block("Volume_run", vec![])], three.clone()),
        SchemaError::MissingKey
    );
    assert_eq!(
        polygons_error(vec![polygon_block("Volume_run", vec![text("n_p"), whole(-4)])], three),
        SchemaError::OutOfRange
    );
}

fn numeric(name: &str, storage: &str, size: i64, store: Vec<ReaderElement>) -> ReaderElement {
    let mut values = vec![text("size"), whole(size), text("storage"), text(storage)];
    values.extend(store);
    arr(vec![
        arr(vec![text("scope"), text("public"), text("type"), text("numeric"), text("name"), text(name)]),
        arr(vec![text("size"), whole(size), text("values"), arr(values)]),
    ])
}

fn tuples(rows: Vec<Vec<ReaderElement>>) -> Vec<ReaderElement> {
    vec![text("tuples"), arr(rows.into_iter().map(arr).collect())]
}

fn with_attributes(kind: &str, count_key: &str, count: i64, blocks: Vec<ReaderElement>) -> ReaderElement {
    arr(vec![
        text(count_key),
        whole(count),
        text("attributes"),
        arr(vec![text(kind), arr(blocks)]),
    ])
}

#[test]
fn numeric_attributes_are_read_from_tuples() {
    let root = with_attributes(
        "pointattributes",
        "pointcount",
        2,
        vec![
            numeric(
                "P",
                "fpreal32",
                3,
                tuples(vec![
                    vec![real_of(0.5), whole(-1), real_of(2.25)],
                    vec![whole(3), real_of(4.0), whole(9007199254740993)],
                ]),
            ),
            numeric("id", "int32", 1, tuples(vec![vec![whole(7)], vec![whole(-8)]])),
            numeric("weird", "uint8", 1, tuples(vec![vec![whole(7)]])),
        ],
    );
    let attrs = parse_attributes(&root, "pointattributes", "pointcount").expect("attributes");
    assert_eq!(attrs.len(), 2);
    assert_eq!(attrs[0].name, "P");
    match &attrs[0].attribute {
        GeoAttributeKind::Float64(a) => {
            assert_eq!(a.tuple_size(), 3);
            assert_eq!(a.len(), 2);
            assert_eq!(values_of(a, 0), vec![0.5, -1.0, 2.25]);
            assert_eq!(values_of(a, 1), vec![3.0, 4.0, 9007199254740992.0]);
        }
        _ => panic!("P is no attribute of reals"),
    }
    assert_eq!(attrs[1].name, "id");
    match &attrs[1].attribute {
        GeoAttributeKind::Int64(a) => {
            assert_eq!(a.tuple_size(), 1);
            assert_eq!(a.value(0), &[7]);
            assert_eq!(a.value(1), &[-8]);
        }
        _ => panic!("id is no attribute of integers"),
    }
}

#[test]
fn a_later_attribute_takes_the_place_of_one_with_its_name() {
    let root = with_attributes(
        "pointattributes",
        "pointcount",
        1,
        vec![
            numeric("a", "int32", 1, tuples(vec![vec![whole(1)]])),
            numeric("b", "int32", 1, tuples(vec![vec![whole(2)]])),
            numeric("a", "int32", 1, tuples(vec![vec![whole(3)]])),
        ],
    );
    let attrs = parse_attributes(&root, "pointattributes", "pointcount").expect("attributes");
    assert_eq!(attrs.len(), 2);
    assert_eq!(attrs[0].name, "a");
    match &attrs[0].attribute {
        GeoAttributeKind::Int64(a) => assert_eq!(a.value(0), &[3]),
        _ => panic!("a is no attribute of integers"),
    }
}

#[test]
fn attributes_are_read_from_arrays_and_indices() {
    let block = arr(vec![
        arr(vec![text("type"), text("numeric"), text("name"), text("group")]),
        arr(vec![
            text("indices"),
            arr(vec![
                text("size"),
                whole(1),
                text("storage"),
                text("int32"),
                text("arrays"),
                arr(vec![wholes(&[0, 0, 1, 2])]),
            ]),
        ]),
    ]);
    let root = with_attributes("primitiveattributes", "primitivecount", 4, vec![block]);
    let attrs = parse_attributes(&root, "primitiveattributes", "primitivecount").expect("attributes");
    match &attrs[0].attribute {
        GeoAttributeKind::Int64(a) => {
            assert_eq!(a.len(), 4);
            assert_eq!(a.value(3), &[2]);
        }
        _ => panic!("group is no attribute of integers"),
    }
}

#[test]
fn string_attributes_are_read() {
    let block = arr(vec![
        arr(vec![text("type"), text("string"), text("name"), text("name")]),
        arr(vec![
            text("strings"),
            arr(vec![text("left"), text("right")]),
            text("indices"),
            arr(vec![
                text("size"),
                whole(1),
                text("storage"),
                text("int32"),
                text("arrays"),
                arr(vec![wholes(&[1, 0, 1])]),
            ]),
        ]),
    ]);
    let root = with_attributes("pointattributes", "pointcount", 3, vec![block]);
    let attrs = parse_attributes(&root, "pointattributes", "pointcount").expect("attributes");
    match &attrs[0].attribute {
        GeoAttributeKind::String(a) => {
            assert_eq!(a.tuple_size(), 1);
            assert_eq!(a.len(), 3);
            assert_eq!(a.value(0), "right");
            assert_eq!(a.value(1), "left");
            assert_eq!(a.value(2), "right");
        }
        _ => panic!("name is no attribute of strings"),
    }
}

#[test]
fn blocks_that_are_not_understood_are_passed_over() {
    let root = with_attributes(
        "pointattributes",
        "pointcount",
        1,
        vec![
            whole(5),
            arr(vec![whole(1)]),
            arr(vec![
                arr(vec![text("type"), text("arraydata"), text("name"), text("x")]),
                arr(vec![text("values"), arr(vec![])]),
            ]),
        ],
    );
    let attrs = parse_attributes(&root, "pointattributes", "pointcount").expect("attributes");
    assert_eq!(attrs.len(), 0);
    // no attributes of that kind at all
    let root = with_attributes("vertexattributes", "pointcount", 1, vec![]);
    let attrs = parse_attributes(&root, "pointattributes", "pointcount").expect("attributes");
    assert_eq!(attrs.len(), 0);
}

fn attribute_error(blocks: Vec<ReaderElement>) -> SchemaError {
    let root = with_attributes("pointattributes", "pointcount", 2, blocks);
    match parse_attributes(&root, "pointattributes", "pointcount") {
        Ok(_) => panic!("attributes were read"),
        Err(e) => e,
    }
}

#[test]
fn each_attribute_error_has_its_input() {
    assert_eq!(
        parse_attributes(&arr(vec![]), "pointattributes", "pointcount").err(),
        Some(SchemaError::MissingKey)
    );
    assert_eq!(
        parse_attributes(&arr(vec![text("pointcount"), whole(1)]), "pointattributes", "pointcount")
            .err(),
        Some(SchemaError::MissingKey)
    );
    assert_eq!(
        attribute_error(vec![arr(vec![arr(vec![text("type"), text("numeric")]), arr(vec![])])]),
        SchemaError::MissingKey
    );
    assert_eq!(
        attribute_error(vec![arr(vec![arr(vec![text("name"), whole(1)]), arr(vec![])])]),
        SchemaError::WrongType
    );
    assert_eq!(
        attribute_error(vec![arr(vec![
            arr(vec![text("name"), text("a"), text("type"), text("numeric")]),
            arr(vec![]),
        ])]),
        SchemaError::MissingKey
    );
    // a tuple of another size than declared
    assert_eq!(
        attribute_error(vec![numeric("a", "int32", 2, tuples(vec![vec![whole(1)]]))]),
        SchemaError::Inconsistent
    );
    assert_eq!(
        attribute_error(vec![numeric("a", "int32", 1, tuples(vec![vec![real_of(1.0)]]))]),
        SchemaError::WrongType
    );
    assert_eq!(
        attribute_error(vec![numeric("a", "fpreal64", 1, tuples(vec![vec![text("x")]]))]),
        SchemaError::WrongType
    );
    assert_eq!(
        attribute_error(vec![numeric("a", "int32", 1, vec![text("tuples"), arr(vec![whole(1)])])]),
        SchemaError::WrongType
    );
    // values kept in no way that is read
    assert_eq!(
        attribute_error(vec![numeric("a", "int32", 1, vec![])]),
        SchemaError::NotImplemented
    );
    assert_eq!(
        attribute_error(vec![numeric("a", "int32", 2, vec![text("arrays"), arr(vec![wholes(&[1])])])]),
        SchemaError::NotImplemented
    );
    assert_eq!(
        attribute_error(vec![numeric("a", "int32", 1, vec![text("arrays"), arr(vec![])])]),
        SchemaError::Inconsistent
    );
    assert_eq!(
        attribute_error(vec![numeric("a", "int32", -1, tuples(vec![]))]),
        SchemaError::OutOfRange
    );
    assert_eq!(
        attribute_error(vec![numeric("a", "int32", 1, vec![text("rawpagedata"), wholes(&[1])])]),
        SchemaError::WrongType
    );
}

fn singles(values: &[f32]) -> Vec<Real32> {
    values.iter().map(|x| Real32 { bits: x.to_bits() }).collect()
}

fn paged_block(flags: Option<ReaderElement>, packing: Option<ReaderElement>, pagesize: i64) -> ReaderElement {
    let mut values = vec![text("size"), whole(2), text("storage"), text("fpreal32")];
    if let Some(p) = packing {
        values.push(text("packing"));
        values.push(p);
    }
    values.push(text("pagesize"));
    values.push(whole(pagesize));
    if let Some(f) = flags {
        values.push(text("constantpageflags"));
        values.push(f);
    }
    arr(values)
}

fn flags_of(lists: &[&[bool]]) -> ReaderElement {
    arr(lists
        .iter()
        .map(|l| arr(l.iter().map(|b| ReaderElement::Bool(*b)).collect()))
        .collect())
}

fn reals_of(v: Vec<Real64>) -> Vec<f64> {
    v.iter().map(|r| f64::from_bits(r.bits)).collect()
}

#[test]
fn a_constant_page_is_broadcast() {
    // two subcomponents of width 1, pages of 2 items, 4 items; the second
    // page is constant for the first subcomponent
    let flags = flags_of(&[&[false, true], &[false, false]]);
    let block = paged_block(Some(flags), Some(wholes(&[1, 1])), 2);
    let raw = singles(&[1.0, 2.0, 10.0, 20.0, 9.0, 30.0, 40.0]);
    let out: Vec<Real64> = parse_rawpagedata(&block, &raw, 4, 2).expect("pages");
    assert_eq!(reals_of(out), vec![1.0, 10.0, 2.0, 20.0, 9.0, 30.0, 9.0, 40.0]);
    // the raw run must end where the pages end
    let raw = singles(&[1.0, 2.0, 10.0, 20.0, 9.0, 30.0]);
    assert_eq!(
        parse_rawpagedata::<Real64, Real32>(&block, &raw, 4, 2).err(),
        Some(SchemaError::Inconsistent)
    );
    let raw = singles(&[1.0, 2.0, 10.0, 20.0, 9.0, 30.0, 40.0, 50.0]);
    assert_eq!(
        parse_rawpagedata::<Real64, Real32>(&block, &raw, 4, 2).err(),
        Some(SchemaError::Inconsistent)
    );
}

#[test]
fn pages_without_flags_are_copied() {
    // one subcomponent of the whole tuple: the raw run is the flat run
    let block = paged_block(None, None, 2);
    let raw: Vec<i32> = vec![1, 2, 3, 4, 5, 6];
    let out: Vec<i64> = parse_rawpagedata(&block, &raw, 3, 2).expect("pages");
    assert_eq!(out, vec![1, 2, 3, 4, 5, 6]);
    // two subcomponents: within a page each stands by itself
    let block = paged_block(Some(arr(vec![arr(vec![]), arr(vec![])])), Some(wholes(&[1, 1])), 2);
    let out: Vec<i64> = parse_rawpagedata(&block, &raw, 3, 2).expect("pages");
    assert_eq!(out, vec![1, 3, 2, 4, 5, 6]);
    // flags that are not there at all
    let block = paged_block(None, Some(wholes(&[1, 1])), 2);
    let out: Vec<i64> = parse_rawpagedata(&block, &raw, 3, 2).expect("pages");
    assert_eq!(out, vec![1, 3, 2, 4, 5, 6]);
    // flags as integers and as a uniform array of truth values
    let flags = arr(vec![
        wholes(&[1, 0]),
        ReaderElement::UniformArray(UniformArrayType::UniformArrayTbool(vec![false, true])),
    ]);
    let block = paged_block(Some(flags), Some(wholes(&[1, 1])), 2);
    let raw: Vec<u8> = vec![7, 1, 2, 3, 8];
    let out: Vec<usize> = parse_rawpagedata(&block, &raw, 3, 2).expect("pages");
    assert_eq!(out, vec![7, 1, 7, 2, 3, 8]);
}

#[test]
fn paged_values_convert_between_kinds() {
    let block = paged_block(None, None, 1024);
    let raw = singles(&[1.5, -2.5, 3.0, 1e30]);
    let out: Vec<i64> = parse_rawpagedata(&block, &raw, 2, 2).expect("pages");
    assert_eq!(out, vec![1, -2, 3, i64::MAX]);
    let raw: Vec<i16> = vec![-3, 4];
    let out: Vec<Real64> = parse_rawpagedata(&block, &raw, 1, 2).expect("pages");
    assert_eq!(reals_of(out), vec![-3.0, 4.0]);
    let none: Vec<i8> = vec![];
    let out: Vec<i64> = parse_rawpagedata(&block, &none, 0, 2).expect("pages");
    assert_eq!(out, Vec::<i64>::new());
}

#[test]
fn each_layout_error_has_its_input() {
    let raw: Vec<i32> = vec![1, 2, 3, 4];
    let run = |block: &ReaderElement, n: usize, size: usize| -> Option<SchemaError> {
        parse_rawpagedata::<i64, i32>(block, &raw, n, size).err()
    };
    assert_eq!(run(&paged_block(None, None, 0), 2, 2), Some(SchemaError::OutOfRange));
    assert_eq!(run(&paged_block(None, None, -1), 2, 2), Some(SchemaError::OutOfRange));
    assert_eq!(run(&paged_block(None, None, 2), usize::MAX, 2), Some(SchemaError::OutOfRange));
    // widths that do not add up to the size of a tuple
    assert_eq!(
        run(&paged_block(None, Some(wholes(&[1])), 2), 2, 2),
        Some(SchemaError::Inconsistent)
    );
    assert_eq!(
        run(&paged_block(None, Some(wholes(&[2, 1])), 2), 2, 2),
        Some(SchemaError::Inconsistent)
    );
    // flags for fewer subcomponents, or for fewer pages, than there are
    assert_eq!(
        run(&paged_block(Some(flags_of(&[&[false]])), Some(wholes(&[1, 1])), 2), 2, 2),
        Some(SchemaError::Inconsistent)
    );
    assert_eq!(
        run(&paged_block(Some(flags_of(&[&[false], &[false]])), Some(wholes(&[1, 1])), 1), 2, 2),
        Some(SchemaError::Inconsistent)
    );
    assert_eq!(
        run(&paged_block(Some(arr(vec![whole(1)])), None, 2), 2, 2),
        Some(SchemaError::WrongType)
    );
    assert_eq!(
        run(&paged_block(Some(arr(vec![arr(vec![text("x")])])), None, 2), 2, 2),
        Some(SchemaError::WrongType)
    );
    assert_eq!(
        run(&paged_block(None, Some(arr(vec![real_of(1.0)])), 2), 2, 2),
        Some(SchemaError::WrongType)
    );
    assert_eq!(
        run(&paged_block(None, Some(wholes(&[-2])), 2), 2, 2),
        Some(SchemaError::OutOfRange)
    );
    assert_eq!(run(&arr(vec![text("size"), whole(2)]), 2, 2), Some(SchemaError::MissingKey));
    assert_eq!(run(&arr(vec![]), 2, 2), Some(SchemaError::MissingKey));
    // a run that is too short, a run that is too long
    assert_eq!(run(&paged_block(None, None, 2), 3, 2), Some(SchemaError::Inconsistent));
    assert_eq!(run(&paged_block(None, None, 2), 1, 2), Some(SchemaError::Inconsistent));
    assert_eq!(run(&paged_block(None, None, 2), 2, 2), None);
}

#[test]
fn paged_values_are_read_through_the_attribute() {
    let mut values = vec![
        text("size"),
        whole(3),
        text("storage"),
        text("fpreal32"),
        text("packing"),
        ReaderElement::UniformArray(UniformArrayType::UniformArrayTu8(vec![3])),
        text("pagesize"),
        whole(1024),
        text("constantpageflags"),
        arr(vec![arr(vec![])]),
        text("rawpagedata"),
    ];
    values.push(ReaderElement::UniformArray(UniformArrayType::UniformArrayTf32(singles(&[
        0.5, -0.5, 0.25, 1.0, 2.0, 3.0,
    ]))));
    let out: Vec<Real64> = parse_values(&arr(values), 3, 2).expect("values");
    assert_eq!(reals_of(out), vec![0.5, -0.5, 0.25, 1.0, 2.0, 3.0]);
}

#[test]
fn a_tuple_can_be_set() {
    let data: Vec<i64> = vec![1, 2, 3, 4, 5, 6];
    let mut a = TupleGeoAttribute::new(2, data);
    a.set_value(1, &[30, 40]);
    assert_eq!(a.value(0), &[1, 2]);
    assert_eq!(a.value(1), &[30, 40]);
    assert_eq!(a.value(2), &[5, 6]);
    let b = a.copy();
    assert_eq!(b.value(1), &[30, 40]);
    assert_eq!(b.len(), 3);
    let t = TokenGeoAttribute::new(vec!["a".to_string()], vec![0, 0]);
    assert_eq!(t.value(1), "a");
}

fn cube() -> ReaderElement {
    let p = numeric(
        "P",
        "fpreal32",
        3,
        tuples(vec![
            vec![real_of(0.0), real_of(0.0), real_of(0.0)],
            vec![real_of(1.0), real_of(0.0), real_of(0.0)],
            vec![real_of(1.0), real_of(1.0), real_of(0.0)],
            vec![real_of(0.0), real_of(1.0), real_of(0.0)],
            vec![real_of(0.5), real_of(0.5), real_of(1.0)],
        ]),
    );
    let n = numeric(
        "N",
        "fpreal32",
        3,
        tuples(vec![
            vec![real_of(0.0), real_of(0.0), real_of(-1.0)],
            vec![real_of(0.0), real_of(-1.0), real_of(0.5)],
        ]),
    );
    geometry(vec![
        text("attributes"),
        arr(vec![
            text("pointattributes"),
            arr(vec![p]),
            text("primitiveattributes"),
            arr(vec![n]),
        ]),
        text("primitives"),
        arr(vec![polygon_block(
            "Polygon_run",
            vec![text("startvertex"), whole(0), text("nvertices"), wholes(&[4, 3])],
        )]),
    ])
}

fn triple(t: &[Real64; 3]) -> [f64; 3] {
    [f64::from_bits(t[0].bits), f64::from_bits(t[1].bits), f64::from_bits(t[2].bits)]
}

#[test]
fn a_solid_is_the_fans_of_its_polygons() {
    let root = cube();
    let mut parser = HoudiniGeoSchemaParser::new(&root).expect("header");
    let solid = create_stl_solid(&mut parser).expect("solid");
    assert!(parser.has_point_attributes());
    assert!(parser.has_primitive_attributes());
    assert!(parser.has_polygons());
    assert_eq!(parser.point_attribute_names(), vec!["P"]);
    assert!(parser.point_attribute("P").is_some());
    assert!(parser.point_attribute("Cd").is_none());
    assert!(parser.primitive_attribute("N").is_some());
    assert_eq!(parser.polygons().len(), 2);
    // vertices 0 1 2 3 are points 0 1 2 3; vertices 4 5 6 are points 0 2 4
    assert_eq!(solid.faces.len(), 3);
    assert_eq!(triple(&solid.faces[0].normal), [0.0, 0.0, -1.0]);
    assert_eq!(triple(&solid.faces[0].vertices[0]), [0.0, 0.0, 0.0]);
    assert_eq!(triple(&solid.faces[0].vertices[1]), [1.0, 0.0, 0.0]);
    assert_eq!(triple(&solid.faces[0].vertices[2]), [1.0, 1.0, 0.0]);
    assert_eq!(triple(&solid.faces[1].normal), [0.0, 0.0, -1.0]);
    assert_eq!(triple(&solid.faces[1].vertices[0]), [0.0, 0.0, 0.0]);
    assert_eq!(triple(&solid.faces[1].vertices[1]), [1.0, 1.0, 0.0]);
    assert_eq!(triple(&solid.faces[1].vertices[2]), [0.0, 1.0, 0.0]);
    assert_eq!(triple(&solid.faces[2].normal), [0.0, -1.0, 0.5]);
    assert_eq!(triple(&solid.faces[2].vertices[0]), [0.0, 0.0, 0.0]);
    assert_eq!(triple(&solid.faces[2].vertices[1]), [1.0, 1.0, 0.0]);
    assert_eq!(triple(&solid.faces[2].vertices[2]), [0.5, 0.5, 1.0]);
    let again = build_stl_solid(&parser).expect("solid");
    assert_eq!(again.faces.len(), 3);
}

#[test]
fn a_solid_needs_points_of_three_reals() {
    let root = geometry(vec![
        text("attributes"),
        arr(vec![text("pointattributes"), arr(vec![])]),
        text("primitives"),
        arr(vec![]),
    ]);
    let mut parser = HoudiniGeoSchemaParser::new(&root).expect("header");
    assert_eq!(create_stl_solid(&mut parser).err(), Some(SchemaError::WrongType));
    let root = geometry(vec![
        text("attributes"),
        arr(vec![
            text("pointattributes"),
            arr(vec![numeric("P", "fpreal32", 2, tuples(vec![vec![real_of(0.0), real_of(0.0)]]))]),
        ]),
        text("primitives"),
        arr(vec![polygon_block(
            "Polygon_run",
            vec![text("startvertex"), whole(0), text("nvertices"), wholes(&[3])],
        )]),
    ]);
    let mut parser = HoudiniGeoSchemaParser::new(&root).expect("header");
    assert_eq!(create_stl_solid(&mut parser).err(), Some(SchemaError::Inconsistent));
    // a polygon of one corner
    let root = geometry(vec![
        text("attributes"),
        arr(vec![
            text("pointattributes"),
            arr(vec![numeric(
                "P",
                "fpreal32",
                3,
                tuples(vec![vec![real_of(0.0), real_of(0.0), real_of(0.0)]]),
            )]),
        ]),
        text("primitives"),
        arr(vec![polygon_block(
            "Polygon_run",
            vec![text("startvertex"), whole(0), text("nvertices"), wholes(&[1])],
        )]),
    ]);
    let mut parser = HoudiniGeoSchemaParser::new(&root).expect("header");
    assert_eq!(create_stl_solid(&mut parser).err(), Some(SchemaError::Inconsistent));
    // a corner at a point that has no position
    let root = geometry(vec![
        text("attributes"),
        arr(vec![
            text("pointattributes"),
            arr(vec![numeric(
                "P",
                "fpreal32",
                3,
                tuples(vec![vec![real_of(0.0), real_of(0.0), real_of(0.0)]]),
            )]),
        ]),
        text("primitives"),
        arr(vec![polygon_block(
            "Polygon_run",
            vec![text("startvertex"), whole(0), text("nvertices"), wholes(&[3])],
        )]),
    ]);
    let mut parser = HoudiniGeoSchemaParser::new(&root).expect("header");
    assert_eq!(create_stl_solid(&mut parser).err(), Some(SchemaError::OutOfRange));
}

#[test]
fn keys_of_objects_play_no_part_in_the_schema() {
    let root = ReaderElement::KeyValueObject(vec![KeyValueEntry {
        key: "pointcount".to_string(),
        value: whole(1),
    }]);
    assert_eq!(header_error(root), SchemaError::MalformedContainer);
}
