use geoconverter::bgeo_struct_serializer::{is_storable, to_bjson};
use geoconverter::expressions::evaluation::{EvaluationError, EvaluationFailure, Operation};
use geoconverter::expressions::expressions::{
    float_literals, precompile_expression, BindingValue, PrecompiledCode,
};
use geoconverter::expressions::vec_types::Vector;
use geoconverter::geo_attributes::{GeoAttribute, GeoAttributeKind, TupleGeoAttribute};
use geoconverter::geo_struct::KeyValueEntry;
use geoconverter::houdini_geo_schema_manipulator::{
    bind_item, chunk_ends, evaluate_items, run_over_f64, store_item, store_items, tuples_block,
    values_pointer, write_to_structure, HoudiniGeoSchemaManipulator, ManipulationError,
    TransformError,
};
use geoconverter::{parse, parse_binary, HoudiniGeoSchemaParser, ReaderElement, Real32, Real64};
use geoconverter::{SchemaError, UniformArrayType};

fn text(s: &str) -> ReaderElement {
    ReaderElement::Text(s.to_string())
}

fn whole(x: i64) -> ReaderElement {
    ReaderElement::Int(x)
}

fn arr(items: Vec<ReaderElement>) -> ReaderElement {
    ReaderElement::Array(items)
}

fn number(x: f64) -> Real64 {
    Real64 { bits: x.to_bits() }
}

/// Five points with an attribute `foo` of single precision, kept in
/// pages, and an attribute `id` of integers.
fn geometry() -> ReaderElement {
    let foo: Vec<Real32> = (0..5).map(|i| Real32 { bits: (1.23f32 * i as f32).to_bits() }).collect();
    arr(vec![
        text("pointcount"),
        whole(5),
        text("vertexcount"),
        whole(0),
        text("primitivecount"),
        whole(0),
        text("attributes"),
        arr(vec![
            text("pointattributes"),
            arr(vec![
                arr(vec![
                    arr(vec![text("type"), text("numeric"), text("name"), text("id")]),
                    arr(vec![
                        text("values"),
                        arr(vec![
                            text("size"),
                            whole(1),
                            text("storage"),
                            text("int32"),
                            text("arrays"),
                            arr(vec![arr((0..5).map(whole).collect())]),
                        ]),
                    ]),
                ]),
                arr(vec![
                    arr(vec![text("type"), text("numeric"), text("name"), text("foo")]),
                    arr(vec![
                        text("size"),
                        whole(1),
                        text("values"),
                        arr(vec![
                            text("size"),
                            whole(1),
                            text("storage"),
                            text("fpreal32"),
                            text("pagesize"),
                            whole(1024),
                            text("rawpagedata"),
                            ReaderElement::UniformArray(UniformArrayType::UniformArrayTf32(foo)),
                        ]),
                    ]),
                ]),
            ]),
        ]),
    ])
}

fn binary64(op: Operation, a: Real64, b: Real64) -> Real64 {
    let (a, b) = (f64::from_bits(a.bits), f64::from_bits(b.bits));
    number(match op {
        Operation::Add => a + b,
        Operation::Subtract => a - b,
        Operation::Multiply => a * b,
        Operation::Divide => a / b,
    })
}

fn compile(line: &str) -> PrecompiledCode {
    precompile_expression(line, &readings(line)).expect("the line compiles")
}

fn reals_of(size: usize, data: &[f64]) -> TupleGeoAttribute<Real64> {
    TupleGeoAttribute::new(size, data.iter().map(|x| number(*x)).collect())
}

fn scalars(attr: &TupleGeoAttribute<Real64>, items: usize) -> Vec<f64> {
    (0..items).flat_map(|i| attr.value(i).iter().map(|x| f64::from_bits(x.bits))).collect()
}

fn readings(line: &str) -> Vec<Option<Real64>> {
    float_literals(line)
        .expect("the line scans")
        .iter()
        .map(|t| t.parse::<f64>().ok().map(number))
        .collect()
}

#[test]
fn test_write_something() {
    // what a file of the geometry holds
    let mut bytes = Vec::new();
    to_bjson(&geometry(), &mut bytes);
    let geo_data = parse(&bytes, &vec![]).expect("parse failed");

    let mut manip = HoudiniGeoSchemaManipulator::new(&geo_data).expect("bad schema");
    let line = "@foo+100.29";
    assert_eq!(manip.run_over_point_attributes(line, &readings(line), "foo", &binary64), Ok(()));
    let result_elem = manip.into_result();

    // the tree that went in is as it was
    let mut before = HoudiniGeoSchemaParser::new(&geo_data).expect("header");
    before.parse_point_attributes().expect("point attributes");
    match before.point_attribute("foo") {
        Some(GeoAttributeKind::Float64(a)) => {
            assert_eq!(f64::from_bits(a.value(1)[0].bits), 1.23f32 as f64)
        }
        _ => panic!("no foo"),
    }

    let mut result_parser = HoudiniGeoSchemaParser::new(&result_elem).expect("header");
    result_parser.parse_point_attributes().expect("point attributes");
    let attr = match result_parser.point_attribute("foo") {
        Some(GeoAttributeKind::Float64(attr)) => attr,
        _ => panic!("no foo"),
    };
    let value = |i: usize| f64::from_bits(attr.value(i)[0].bits);
    assert_eq!(100.29, value(0));
    assert_eq!(100.29 + (1.23 * 1.0_f32) as f64, value(1));
    assert_eq!(100.29 + (1.23 * 2.0_f32) as f64, value(2));
    assert_eq!(100.29 + (1.23 * 4.0_f32) as f64, value(4));
    // the other attribute is as it was
    match result_parser.point_attribute("id") {
        Some(GeoAttributeKind::Int64(a)) => assert_eq!(a.value(3), &[3]),
        _ => panic!("no id"),
    }
    // and the tree can be written and read
    assert!(is_storable(&result_elem));
    let mut bytes = Vec::new();
    to_bjson(&result_elem, &mut bytes);
    let back = parse_binary(&bytes).expect("parse failed");
    assert_eq!(format!("{:?}", back), format!("{:?}", result_elem));
}

#[test]
fn runs_read_what_went_in_and_write_to_the_results() {
    let geo_data = geometry();
    let mut manip = HoudiniGeoSchemaManipulator::new(&geo_data).expect("bad schema");
    let code = compile("@foo * 2");
    assert_eq!(manip.run_over_point_attributes_precompiled(&code, "foo", &binary64), Ok(()));
    // a second run reads the values that went in, not those of the first
    assert_eq!(manip.run_over_point_attributes_precompiled(&code, "foo", &binary64), Ok(()));
    let result = manip.into_result();
    let mut parser = HoudiniGeoSchemaParser::new(&result).expect("header");
    parser.parse_point_attributes().expect("point attributes");
    match parser.point_attribute("foo") {
        Some(GeoAttributeKind::Float64(a)) => {
            assert_eq!(a.tuple_size(), 1);
            assert_eq!(f64::from_bits(a.value(2)[0].bits), (1.23f32 * 2.0) as f64 * 2.0);
            assert_eq!(f64::from_bits(a.value(0)[0].bits), 0.0);
        }
        _ => panic!("no foo"),
    }
}

#[test]
fn each_manipulation_error_has_its_input() {
    assert_eq!(
        HoudiniGeoSchemaManipulator::new(&whole(1)).err(),
        Some(SchemaError::MalformedContainer)
    );
    let geo_data = geometry();
    let run = |line: &str, target: &str| {
        let mut manip = HoudiniGeoSchemaManipulator::new(&geo_data).expect("bad schema");
        let r = manip.run_over_point_attributes(line, &readings(line), target, &binary64);
        if r.is_err() {
            // nothing was written
            assert_eq!(format!("{:?}", manip.into_result()), format!("{:?}", geo_data));
        }
        r
    };
    assert_eq!(run("@foo + 1", "bar"), Err(ManipulationError::NoTargetAttribute));
    assert_eq!(run("@bar + 1", "foo"), Err(ManipulationError::NoSourceAttribute));
    assert_eq!(run("@foo + 1", "id"), Err(ManipulationError::NotImplemented));
    assert_eq!(
        run("@id + 1", "foo"),
        Err(ManipulationError::Transform(TransformError::Binding(SchemaError::NotImplemented)))
    );
    assert_eq!(
        run("@foo.x", "foo"),
        Err(ManipulationError::Transform(TransformError::Evaluation(EvaluationError {
            reason: EvaluationFailure::NotAVector
        })))
    );
    assert_eq!(
        run("1 + 2", "foo"),
        Err(ManipulationError::Transform(TransformError::Storing(SchemaError::WrongType)))
    );
    match precompile_expression("1 +", &vec![]) {
        Err(e) => assert_eq!(run("1 +", "foo"), Err(ManipulationError::Compilation(e))),
        Ok(_) => panic!("compiles"),
    }
    // a tree without point attributes has no attribute to write to
    let bare = arr(vec![
        text("pointcount"),
        whole(0),
        text("vertexcount"),
        whole(0),
        text("primitivecount"),
        whole(0),
    ]);
    let mut manip = HoudiniGeoSchemaManipulator::new(&bare).expect("bad schema");
    assert_eq!(
        manip.run_over_point_attributes("1.5", &readings("1.5"), "foo", &binary64),
        Err(ManipulationError::Schema(SchemaError::MissingKey))
    );
}

#[test]
fn values_are_bound_by_the_size_of_the_tuple() {
    let one = GeoAttributeKind::Float64(TupleGeoAttribute::new(1, vec![number(1.5), number(2.5)]));
    assert_eq!(bind_item(&one, 1), Ok(BindingValue::Float(number(2.5))));
    assert_eq!(bind_item(&one, 2), Err(SchemaError::OutOfRange));
    let three = GeoAttributeKind::Float64(TupleGeoAttribute::new(
        3,
        vec![number(1.0), number(2.0), number(3.0), number(4.0), number(5.0), number(6.0), number(7.0)],
    ));
    assert_eq!(
        bind_item(&three, 1),
        Ok(BindingValue::Vector3(Vector::new(number(4.0), number(5.0), number(6.0))))
    );
    assert_eq!(bind_item(&three, 2), Err(SchemaError::OutOfRange));
    let two = GeoAttributeKind::Float64(TupleGeoAttribute::new(2, vec![number(1.0), number(2.0)]));
    assert_eq!(bind_item(&two, 0), Err(SchemaError::NotImplemented));
    let ints = GeoAttributeKind::Int64(TupleGeoAttribute::new(1, vec![1, 2]));
    assert_eq!(bind_item(&ints, 0), Err(SchemaError::NotImplemented));
}

#[test]
fn values_are_stored_by_the_size_of_the_tuple() {
    let v = Vector::new(number(7.0), number(8.0), number(9.0));
    let mut two = TupleGeoAttribute::new(2, vec![number(1.0), number(2.0), number(3.0), number(4.0)]);
    assert_eq!(store_item(&mut two, 1, BindingValue::Vector3(v)), Ok(()));
    assert_eq!(two.value(0), &[number(1.0), number(2.0)]);
    assert_eq!(two.value(1), &[number(7.0), number(8.0)]);
    assert_eq!(store_item(&mut two, 2, BindingValue::Vector3(v)), Err(SchemaError::OutOfRange));
    assert_eq!(
        store_item(&mut two, 0, BindingValue::Float(number(1.0))),
        Err(SchemaError::Inconsistent)
    );
    assert_eq!(store_item(&mut two, 0, BindingValue::Int(1)), Err(SchemaError::WrongType));
    assert_eq!(store_item(&mut two, 0, BindingValue::Unknown), Err(SchemaError::WrongType));
    let mut four = TupleGeoAttribute::new(4, vec![number(0.0); 4]);
    assert_eq!(store_item(&mut four, 0, BindingValue::Vector3(v)), Err(SchemaError::Inconsistent));
    let mut one = TupleGeoAttribute::new(1, vec![number(0.0); 2]);
    assert_eq!(store_item(&mut one, 1, BindingValue::Float(number(5.0))), Ok(()));
    assert_eq!(one.value(1), &[number(5.0)]);
    assert_eq!(store_item(&mut one, 0, BindingValue::Vector3(v)), Ok(()));
    assert_eq!(one.value(0), &[number(7.0)]);
}

#[test]
fn the_values_of_an_attribute_are_found_and_replaced() {
    let mut root = geometry();
    let pointer = values_pointer(&root, "pointattributes", "foo").expect("path").expect("found");
    match pointer.locate_key_in(&root) {
        Some(ReaderElement::Array(values)) => assert_eq!(format!("{:?}", values[0]), "Text(\"size\")"),
        other => panic!("unexpected {:?}", other),
    }
    assert!(values_pointer(&root, "pointattributes", "bar").expect("path").is_none());
    assert!(values_pointer(&root, "vertexattributes", "foo").expect("path").is_none());
    assert!(values_pointer(&arr(vec![]), "pointattributes", "foo").expect("path").is_none());
    assert_eq!(
        values_pointer(&whole(1), "pointattributes", "foo").err(),
        Some(SchemaError::MalformedContainer)
    );
    let attr = TupleGeoAttribute::new(2, vec![number(1.0), number(2.0), number(3.0), number(4.0)]);
    assert_eq!(
        format!("{:?}", tuples_block(&attr).expect("block")),
        format!(
            "Array([Text(\"size\"), Int(2), Text(\"storage\"), Text(\"fpreal64\"), Text(\"tuples\"), Array([Array([{:?}, {:?}]), Array([{:?}, {:?}])])])",
            ReaderElement::Float(number(1.0)),
            ReaderElement::Float(number(2.0)),
            ReaderElement::Float(number(3.0)),
            ReaderElement::Float(number(4.0)),
        )
    );
    assert_eq!(write_to_structure(&attr, &mut root, "pointattributes", "bar"), Ok(false));
    assert_eq!(format!("{:?}", root), format!("{:?}", geometry()));
    assert_eq!(write_to_structure(&attr, &mut root, "pointattributes", "id"), Ok(true));
    let pointer = values_pointer(&root, "pointattributes", "id").expect("path").expect("found");
    assert_eq!(
        format!("{:?}", pointer.locate_key_in(&root).expect("found")),
        format!("{:?}", tuples_block(&attr).expect("block"))
    );
}

#[test]
fn trees_that_are_read_back_as_written_are_told() {
    assert!(is_storable(&geometry()));
    assert!(is_storable(&ReaderElement::Null));
    let twice = ReaderElement::KeyValueObject(vec![
        KeyValueEntry { key: "a".to_string(), value: whole(1) },
        KeyValueEntry { key: "b".to_string(), value: whole(2) },
        KeyValueEntry { key: "a".to_string(), value: whole(3) },
    ]);
    assert!(!is_storable(&twice));
    assert!(!is_storable(&arr(vec![whole(1), arr(vec![twice])])));
    let halves = ReaderElement::UniformArray(UniformArrayType::UniformArrayTf16(vec![]));
    assert!(!is_storable(&halves));
    let nested = ReaderElement::KeyValueObject(vec![KeyValueEntry {
        key: "k".to_string(),
        value: halves,
    }]);
    assert!(!is_storable(&nested));
}

#[test]
fn each_item_gets_what_the_expression_works_out_to() {
    let a = GeoAttributeKind::Float64(reals_of(1, &[1., 2., 3., 4.]));
    let v = GeoAttributeKind::Float64(reals_of(3, &[1., 2., 3., 4., 5., 6., 7., 8., 9., 10., 11., 12.]));
    let code = compile("@v * @a + 0.5");
    assert_eq!(code.binding_names(), vec!["v", "a"]);

    // a vector fills a tuple of three
    let mut target = reals_of(3, &[0.; 12]);
    assert_eq!(run_over_f64(&code, &mut target, &vec![&v, &a], &binary64), Ok(()));
    assert_eq!(
        scalars(&target, 4),
        vec![1.5, 2.5, 3.5, 8.5, 10.5, 12.5, 21.5, 24.5, 27.5, 40.5, 44.5, 48.5]
    );

    // and a tuple of two with its first two components
    let mut target = reals_of(2, &[0.; 5]);
    assert_eq!(run_over_f64(&code, &mut target, &vec![&v, &a], &binary64), Ok(()));
    assert_eq!(scalars(&target, 2), vec![1.5, 2.5, 8.5, 10.5]);

    // a real fills a tuple of one
    let code = compile("@v.y - @a");
    let mut target = reals_of(1, &[0.; 3]);
    assert_eq!(run_over_f64(&code, &mut target, &vec![&v, &a], &binary64), Ok(()));
    assert_eq!(scalars(&target, 3), vec![1., 3., 5.]);
}

#[test]
fn a_name_without_an_attribute_keeps_its_value() {
    let a = GeoAttributeKind::Float64(reals_of(1, &[1., 2.]));
    let mut code = compile("@a + @b");
    code.set_bindings_from_vec(&vec![BindingValue::Unknown, BindingValue::Int(10)]);
    assert_eq!(
        evaluate_items(&code, &vec![&a], 0, 2, &binary64),
        Ok(vec![BindingValue::Float(number(11.)), BindingValue::Float(number(12.))])
    );
    // an attribute more than there are names is not asked
    let ints = GeoAttributeKind::Int64(TupleGeoAttribute::new(1, vec![1, 2]));
    let code = compile("@a * 2");
    assert_eq!(
        evaluate_items(&code, &vec![&a, &ints], 1, 2, &binary64),
        Ok(vec![BindingValue::Float(number(4.))])
    );
    assert_eq!(evaluate_items(&code, &vec![&a], 2, 2, &binary64), Ok(vec![]));
    assert_eq!(evaluate_items(&code, &vec![&a], 2, 1, &binary64), Ok(vec![]));
}

#[test]
fn the_first_item_that_fails_ends_the_work() {
    let a = GeoAttributeKind::Float64(reals_of(1, &[1., 2.]));
    let ints = GeoAttributeKind::Int64(TupleGeoAttribute::new(1, vec![1, 2]));
    let two = GeoAttributeKind::Float64(reals_of(2, &[1., 2.]));
    let code = compile("@a + 1");
    assert_eq!(
        evaluate_items(&code, &vec![&a], 0, 3, &binary64),
        Err(TransformError::Binding(SchemaError::OutOfRange))
    );
    assert_eq!(
        evaluate_items(&code, &vec![&ints], 0, 2, &binary64),
        Err(TransformError::Binding(SchemaError::NotImplemented))
    );
    assert_eq!(
        evaluate_items(&code, &vec![&two], 0, 1, &binary64),
        Err(TransformError::Binding(SchemaError::NotImplemented))
    );
    assert_eq!(
        evaluate_items(&code, &vec![], 0, 2, &binary64),
        Err(TransformError::Evaluation(EvaluationError { reason: EvaluationFailure::UnsetBinding }))
    );
    assert_eq!(
        evaluate_items(&compile("@a.x"), &vec![&a], 0, 2, &binary64),
        Err(TransformError::Evaluation(EvaluationError { reason: EvaluationFailure::NotAVector }))
    );

    // nothing is stored where an item fails
    let mut target = reals_of(1, &[7., 8., 9.]);
    assert_eq!(
        run_over_f64(&code, &mut target, &vec![&a], &binary64),
        Err(TransformError::Binding(SchemaError::OutOfRange))
    );
    assert_eq!(scalars(&target, 3), vec![7., 8., 9.]);
    let mut target = reals_of(1, &[7., 8.]);
    assert_eq!(
        run_over_f64(&compile("1 + 2"), &mut target, &vec![], &binary64),
        Err(TransformError::Storing(SchemaError::WrongType))
    );
    assert_eq!(
        run_over_f64(&compile("{1, 2, 3}"), &mut reals_of(4, &[0.; 4]), &vec![], &binary64),
        Err(TransformError::Storing(SchemaError::Inconsistent))
    );
    assert_eq!(scalars(&target, 2), vec![7., 8.]);
    // an attribute of no items has nothing to fail on
    assert_eq!(run_over_f64(&compile("1 + 2"), &mut reals_of(1, &[]), &vec![], &binary64), Ok(()));
    assert_eq!(run_over_f64(&compile("1 + 2"), &mut reals_of(0, &[]), &vec![], &binary64), Ok(()));
}

#[test]
fn values_are_stored_all_or_none() {
    let v = BindingValue::Vector3(Vector::new(number(7.), number(8.), number(9.)));
    let x = BindingValue::Float(number(5.));
    let mut two = reals_of(2, &[1., 2., 3., 4., 5., 6., 0.]);
    assert_eq!(store_items(&mut two, 1, &vec![v, v]), Ok(()));
    assert_eq!(scalars(&two, 3), vec![1., 2., 7., 8., 7., 8.]);
    assert_eq!(store_items(&mut two, 2, &vec![v, v]), Err(SchemaError::OutOfRange));
    assert_eq!(store_items(&mut two, 0, &vec![v, x]), Err(SchemaError::Inconsistent));
    assert_eq!(store_items(&mut two, 0, &vec![v, BindingValue::Int(1)]), Err(SchemaError::WrongType));
    assert_eq!(
        store_items(&mut two, 0, &vec![BindingValue::Unknown, x]),
        Err(SchemaError::WrongType)
    );
    assert_eq!(store_items(&mut two, usize::MAX, &vec![v, v]), Err(SchemaError::OutOfRange));
    assert_eq!(scalars(&two, 3), vec![1., 2., 7., 8., 7., 8.]);
    assert_eq!(store_items(&mut two, 9, &vec![]), Ok(()));
    let mut one = reals_of(1, &[1., 2., 3.]);
    assert_eq!(store_items(&mut one, 1, &vec![x, v]), Ok(()));
    assert_eq!(scalars(&one, 3), vec![1., 5., 7.]);
}

#[test]
fn items_worked_on_in_chunks_get_what_they_get_in_one_go() {
    let data: Vec<f64> = (0..103).map(|i| i as f64 * 1.23).collect();
    let foo = GeoAttributeKind::Float64(reals_of(1, &data));
    let code = compile("@foo * 2 + 100.29");
    let mut whole = reals_of(1, &data);
    assert_eq!(run_over_f64(&code, &mut whole, &vec![&foo], &binary64), Ok(()));
    assert_eq!(f64::from_bits(whole.value(3)[0].bits), 3. * 1.23 * 2. + 100.29);
    for chunk_size in [1usize, 2, 7, 16, 102, 103, 104, 1000] {
        let mut chunked = reals_of(1, &data);
        let mut from = 0;
        for to in chunk_ends(data.len(), chunk_size) {
            let values = evaluate_items(&code, &vec![&foo], from, to, &binary64).expect("worked");
            assert_eq!(values.len(), to - from);
            assert_eq!(store_items(&mut chunked, from, &values), Ok(()));
            from = to;
        }
        assert_eq!(from, data.len());
        for i in 0..data.len() {
            assert_eq!(chunked.value(i), whole.value(i));
        }
    }
}
