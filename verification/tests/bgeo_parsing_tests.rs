use geoconverter::bgeo_format::Endianness;
use geoconverter::bgeo_struct_serializer::{to_bjson, to_bjson_ordered};
use geoconverter::geo_struct::KeyValueEntry;
use geoconverter::{parse, parse_ascii, parse_binary, real_literals};
use geoconverter::{ParseError, ReaderElement, Real32, Real64, UniformArrayType};

/// A unit cube as the textual encoding holds it.
const BOX_GEO: &str = r#"[
	"fileversion","18.0.287",
	"hasindex",false,
	"pointcount",8,
	"vertexcount",24,
	"primitivecount",6,
	"info",{
		"software":"Houdini 18.0.287",
		"bounds":[-0.5,-0.5,-0.5,0.5,0.5,0.5]
	},
	"topology",[
		"pointref",[
			"indices",[0,1,3,2,4,5,7,6,6,7,2,3,5,4,1,0,5,0,2,7,1,4,6,3]
		]
	],
	"attributes",[
		"pointattributes",[
			[
				[
					"scope","public",
					"type","numeric",
					"name","P"
				],
				[
					"size",3,
					"storage","fpreal32",
					"values",[
						"size",3,
						"storage","fpreal32",
						"tuples",[[0.5,-0.5,0.5],[-0.5,-0.5,0.5],[0.5,0.5,0.5],[-0.5,0.5,0.5],[-0.5,-0.5,-0.5],[0.5,-0.5,-0.5],[-0.5,0.5,-0.5],[0.5,0.5,-0.5]]
					]
				]
			]
		]
	],
	"primitives",[
		[
			[
				"type","Polygon_run"
			],
			[
				"startvertex",0,
				"nprimitives",6,
				"nvertices_rle",[4,6]
			]
		]
	]
]
"#;

const BOX_INDICES: [i64; 24] =
    [0, 1, 3, 2, 4, 5, 7, 6, 6, 7, 2, 3, 5, 4, 1, 0, 5, 0, 2, 7, 1, 4, 6, 3];

/// Writes the binary encoding by hand, with tokens for the strings that
/// occur more than once and with the narrowest scalars.
struct Writer {
    out: Vec<u8>,
    big: bool,
    tokens: Vec<String>,
}

impl Writer {
    fn new(big: bool) -> Writer {
        let mut out = vec![0x7f];
        if big {
            out.extend_from_slice(&[0x62, 0x4a, 0x53, 0x4e]);
        } else {
            out.extend_from_slice(&[0x4e, 0x53, 0x4a, 0x62]);
        }
        Writer { out, big, tokens: Vec::new() }
    }

    fn length(&mut self, n: usize) {
        assert!(n < 0xf1);
        self.out.push(n as u8);
    }

    fn text(&mut self, s: &str) {
        // a string that was seen is referenced, one that is new is defined
        if let Some(id) = self.tokens.iter().position(|t| t == s) {
            self.out.push(0x26);
            self.length(id);
        } else {
            let id = self.tokens.len();
            self.tokens.push(s.to_string());
            self.out.push(0x2b);
            self.length(id);
            self.length(s.len());
            self.out.extend_from_slice(s.as_bytes());
            self.out.push(0x26);
            self.length(id);
        }
    }

    fn integer(&mut self, x: i64) {
        if -128 <= x && x <= 127 {
            self.out.push(0x11);
            self.out.push(x as i8 as u8);
        } else {
            self.out.push(0x13);
            let b = if self.big { (x as i32).to_be_bytes() } else { (x as i32).to_le_bytes() };
            self.out.extend_from_slice(&b);
        }
    }

    fn single(&mut self, x: f32) {
        self.out.push(0x19);
        let b = if self.big { x.to_be_bytes() } else { x.to_le_bytes() };
        self.out.extend_from_slice(&b);
    }

    fn value(&mut self, v: &ReaderElement) {
        match v {
            ReaderElement::Null => self.out.push(0x00),
            ReaderElement::Bool(b) => self.out.push(if *b { 0x31 } else { 0x30 }),
            ReaderElement::Text(s) => self.text(s),
            ReaderElement::Int(x) => self.integer(*x),
            ReaderElement::Float(x) => self.single(f64::from_bits(x.bits) as f32),
            ReaderElement::Array(items) => {
                self.out.push(0x5b);
                for item in items {
                    self.value(item);
                }
                self.out.push(0x5d);
            }
            ReaderElement::KeyValueObject(entries) => {
                self.out.push(0x7b);
                for entry in entries {
                    self.text(&entry.key);
                    self.value(&entry.value);
                }
                self.out.push(0x7d);
            }
            ReaderElement::UniformArray(_) => panic!("not written by hand"),
        }
    }
}

fn parse_text(input: &[u8]) -> Result<ReaderElement, ParseError> {
    let reals: Vec<Option<Real64>> = real_literals(input)
        .iter()
        .map(|t| {
            std::str::from_utf8(t)
                .ok()
                .and_then(|s| s.parse::<f64>().ok())
                .map(|x| Real64 { bits: x.to_bits() })
        })
        .collect();
    parse_ascii(input, &reals)
}

fn parse_any(input: &[u8]) -> Result<ReaderElement, ParseError> {
    let reals: Vec<Option<Real64>> = real_literals(input)
        .iter()
        .map(|t| {
            std::str::from_utf8(t)
                .ok()
                .and_then(|s| s.parse::<f64>().ok())
                .map(|x| Real64 { bits: x.to_bits() })
        })
        .collect();
    parse(input, &reals)
}

fn box_bgeo(big: bool) -> Vec<u8> {
    let tree = parse_text(BOX_GEO.as_bytes()).expect("the text of the box is read");
    let mut w = Writer::new(big);
    w.value(&tree);
    w.out
}

fn check_box(elem: &ReaderElement) {
    if let ReaderElement::Array(root_arr) = &elem {
        if let ReaderElement::Text(x) = &root_arr[0] {
            assert_eq!(x, "fileversion");
        } else {
            assert!(false);
        }
        if let ReaderElement::Array(topo_arr) = &root_arr[13] {
            if let ReaderElement::Array(pref_arr) = &topo_arr[1] {
                if let ReaderElement::Array(ind_arr) = &pref_arr[1] {
                    let expected_indices = BOX_INDICES;
                    assert_eq!(ind_arr.len(), expected_indices.len());
                    for (i, idx) in expected_indices.iter().enumerate() {
                        if let ReaderElement::Int(x) = ind_arr[i] {
                            assert_eq!(x, *idx);
                        } else {
                            assert!(false);
                        }
                    }
                } else {
                    assert!(false);
                }
            } else {
                assert!(false);
            }
        } else {
            assert!(false);
        }
    } else {
        assert!(false);
    }
}

#[test]
fn parse_bgeo_box() {
    check_box(&parse_binary(&box_bgeo(true)).expect("parse failed"));
    check_box(&parse_binary(&box_bgeo(false)).expect("parse failed"));
}

#[test]
fn parse_geo_box() {
    check_box(&parse_text(BOX_GEO.as_bytes()).expect("parse failed"));
}

#[test]
fn parse_bgeo_box_autodetect() {
    check_box(&parse_any(&box_bgeo(true)).expect("parse failed"));
}

#[test]
fn parse_geo_box_autodetect() {
    check_box(&parse_any(BOX_GEO.as_bytes()).expect("parse failed"));
}

#[test]
fn binary_and_text_of_the_box_hold_the_same_tree() {
    let from_text = parse_text(BOX_GEO.as_bytes()).expect("parse failed");
    let from_big = parse_binary(&box_bgeo(true)).expect("parse failed");
    let from_little = parse_binary(&box_bgeo(false)).expect("parse failed");
    assert_eq!(format!("{:?}", from_text), format!("{:?}", from_big));
    assert_eq!(format!("{:?}", from_text), format!("{:?}", from_little));
}

fn entry(key: &str, value: ReaderElement) -> KeyValueEntry {
    KeyValueEntry { key: key.to_string(), value }
}

fn sample_tree() -> ReaderElement {
    let flags: Vec<bool> = (0..70).map(|i| i % 3 == 0 || i == 69).collect();
    ReaderElement::Array(vec![
        ReaderElement::Null,
        ReaderElement::Bool(true),
        ReaderElement::Bool(false),
        ReaderElement::Int(0),
        ReaderElement::Int(-1),
        ReaderElement::Int(i64::MAX),
        ReaderElement::Int(i64::MIN),
        ReaderElement::Float(Real64 { bits: 1.5f64.to_bits() }),
        ReaderElement::Float(Real64 { bits: (-0.0f64).to_bits() }),
        ReaderElement::Float(Real64 { bits: f64::NAN.to_bits() }),
        ReaderElement::Text(String::new()),
        ReaderElement::Text("gr\u{fc}\u{df}e \u{1f600}".to_string()),
        ReaderElement::Text("x".repeat(300)),
        ReaderElement::Array(vec![]),
        ReaderElement::Array(vec![ReaderElement::Array(vec![ReaderElement::Null])]),
        ReaderElement::KeyValueObject(vec![]),
        ReaderElement::KeyValueObject(vec![
            entry("a", ReaderElement::Int(1)),
            entry("b", ReaderElement::KeyValueObject(vec![entry("c", ReaderElement::Null)])),
            entry("", ReaderElement::Array(vec![ReaderElement::Bool(true)])),
        ]),
        ReaderElement::UniformArray(UniformArrayType::UniformArrayTu8(vec![0, 1, 255])),
        ReaderElement::UniformArray(UniformArrayType::UniformArrayTu16(vec![0, 258, 65535])),
        ReaderElement::UniformArray(UniformArrayType::UniformArrayTi8(vec![-128, -1, 127])),
        ReaderElement::UniformArray(UniformArrayType::UniformArrayTi16(vec![-32768, 258, 32767])),
        ReaderElement::UniformArray(UniformArrayType::UniformArrayTi32(vec![
            i32::MIN,
            -2,
            16909060,
            i32::MAX,
        ])),
        ReaderElement::UniformArray(UniformArrayType::UniformArrayTi64(vec![
            i64::MIN,
            -3,
            72623859790382856,
            i64::MAX,
        ])),
        ReaderElement::UniformArray(UniformArrayType::UniformArrayTf32(vec![
            Real32 { bits: 1.23f32.to_bits() },
            Real32 { bits: f32::INFINITY.to_bits() },
        ])),
        ReaderElement::UniformArray(UniformArrayType::UniformArrayTf64(vec![
            Real64 { bits: 1.23f64.to_bits() },
            Real64 { bits: 0x0102_0304_0506_0708 },
        ])),
        ReaderElement::UniformArray(UniformArrayType::UniformArrayTbool(flags)),
        ReaderElement::UniformArray(UniformArrayType::UniformArrayTbool(vec![true; 32])),
        ReaderElement::UniformArray(UniformArrayType::UniformArrayTbool(vec![])),
        ReaderElement::UniformArray(UniformArrayType::UniformArrayTi16(vec![7; 241])),
    ])
}

#[test]
fn what_is_written_is_read_back() {
    let tree = sample_tree();
    for order in [Endianness::Little, Endianness::Big] {
        let mut bytes = Vec::new();
        to_bjson_ordered(&tree, order, &mut bytes);
        let back = parse_binary(&bytes).expect("parse failed");
        assert_eq!(format!("{:?}", back), format!("{:?}", tree));
        // what follows the value is not looked at
        bytes.extend_from_slice(&[0xff, 0xff]);
        let back = parse_binary(&bytes).expect("parse failed");
        assert_eq!(format!("{:?}", back), format!("{:?}", tree));
    }
    let mut little = Vec::new();
    to_bjson(&tree, &mut little);
    let mut same = Vec::new();
    to_bjson_ordered(&tree, Endianness::Little, &mut same);
    assert_eq!(little, same);
}

#[test]
fn a_copy_is_the_same_tree() {
    let tree = sample_tree();
    assert_eq!(format!("{:?}", tree.clone()), format!("{:?}", tree));
}

#[test]
fn halves_are_written_as_singles() {
    let tree = ReaderElement::UniformArray(UniformArrayType::UniformArrayTf16(vec![Real32 {
        bits: 1.0f32.to_bits(),
    }]));
    let mut bytes = Vec::new();
    to_bjson(&tree, &mut bytes);
    assert_eq!(bytes[5..], [0x40, 0x19, 1, 0, 0, 0x80, 0x3f]);
    match parse_binary(&bytes).expect("parse failed") {
        ReaderElement::UniformArray(UniformArrayType::UniformArrayTf32(v)) => {
            assert_eq!(v, vec![Real32 { bits: 1.0f32.to_bits() }]);
        }
        other => panic!("unexpected {:?}", other),
    }
}

fn stream(big: bool, body: &[u8]) -> Vec<u8> {
    let mut s = vec![0x7f];
    if big {
        s.extend_from_slice(&[0x62, 0x4a, 0x53, 0x4e]);
    } else {
        s.extend_from_slice(&[0x4e, 0x53, 0x4a, 0x62]);
    }
    s.extend_from_slice(body);
    s
}

fn read(big: bool, body: &[u8]) -> Result<String, ParseError> {
    parse_binary(&stream(big, body)).map(|v| format!("{:?}", v))
}

#[test]
fn scalars_of_each_tag_are_read() {
    assert_eq!(read(false, &[0x00]).unwrap(), "Null");
    assert_eq!(read(false, &[0x10, 0]).unwrap(), "Bool(false)");
    assert_eq!(read(false, &[0x10, 2]).unwrap(), "Bool(true)");
    assert_eq!(read(false, &[0x30]).unwrap(), "Bool(false)");
    assert_eq!(read(false, &[0x31]).unwrap(), "Bool(true)");
    assert_eq!(read(false, &[0x11, 0xff]).unwrap(), "Int(-1)");
    assert_eq!(read(false, &[0x12, 0x01, 0x80]).unwrap(), "Int(-32767)");
    assert_eq!(read(true, &[0x12, 0x80, 0x01]).unwrap(), "Int(-32767)");
    assert_eq!(read(false, &[0x13, 0xfe, 0xff, 0xff, 0xff]).unwrap(), "Int(-2)");
    assert_eq!(read(true, &[0x13, 0x01, 0x02, 0x03, 0x04]).unwrap(), "Int(16909060)");
    assert_eq!(
        read(true, &[0x14, 0x01, 0x02, 0x03, 0x04, 0x05, 0x06, 0x07, 0x08]).unwrap(),
        "Int(72623859790382856)"
    );
    assert_eq!(
        read(false, &[0x14, 0x08, 0x07, 0x06, 0x05, 0x04, 0x03, 0x02, 0x01]).unwrap(),
        "Int(72623859790382856)"
    );
    assert_eq!(read(false, &[0x21, 0xff]).unwrap(), "Int(255)");
    assert_eq!(read(false, &[0x22, 0xff, 0xfe]).unwrap(), "Int(65279)");
    assert_eq!(read(true, &[0x22, 0xff, 0xfe]).unwrap(), "Int(65534)");
    let one = format!("Float(Real64 {{ bits: {} }})", 1.0f64.to_bits());
    assert_eq!(read(true, &[0x18, 0x3c, 0x00]).unwrap(), one);
    assert_eq!(read(false, &[0x18, 0x00, 0x3c]).unwrap(), one);
    assert_eq!(read(true, &[0x19, 0x3f, 0x80, 0, 0]).unwrap(), one);
    assert_eq!(read(false, &[0x19, 0, 0, 0x80, 0x3f]).unwrap(), one);
    assert_eq!(read(true, &[0x1a, 0x3f, 0xf0, 0, 0, 0, 0, 0, 0]).unwrap(), one);
    assert_eq!(read(false, &[0x1a, 0, 0, 0, 0, 0, 0, 0xf0, 0x3f]).unwrap(), one);
    assert_eq!(read(false, &[0x27, 2, b'h', b'i']).unwrap(), "Text(\"hi\")");
}

#[test]
fn tokens_are_defined_referenced_and_undefined() {
    // define 5 as "ab", then the value: a reference to 5
    assert_eq!(read(false, &[0x2b, 5, 2, b'a', b'b', 0x26, 5]).unwrap(), "Text(\"ab\")");
    // a later definition of the same number takes its place
    assert_eq!(
        read(false, &[0x2b, 5, 1, b'a', 0x2b, 5, 1, b'b', 0x26, 5]).unwrap(),
        "Text(\"b\")"
    );
    // definitions stand before any value, inside containers too
    assert_eq!(
        read(false, &[0x5b, 0x2b, 0, 1, b'k', 0x26, 0, 0x26, 0, 0x2b, 1, 1, b'v', 0x5d]).unwrap(),
        "Array([Text(\"k\"), Text(\"k\")])"
    );
    assert_eq!(read(false, &[0x26, 5]), Err(ParseError::UndefinedToken));
    assert_eq!(
        read(false, &[0x2b, 5, 1, b'a', 0x2d, 5, 0x26, 5]),
        Err(ParseError::UndefinedToken)
    );
    assert_eq!(read(false, &[0x2d, 5, 0x00]), Err(ParseError::UndefinedToken));
    assert_eq!(read(false, &[0x2b, 5, 1, b'a', 0x2d, 5, 0x00]).unwrap(), "Null");
}

#[test]
fn containers_are_read_up_to_their_end_tag() {
    assert_eq!(read(false, &[0x5b, 0x5d]).unwrap(), "Array([])");
    assert_eq!(read(false, &[0x5b, 0x00, 0x31, 0x5d]).unwrap(), "Array([Null, Bool(true)])");
    assert_eq!(read(false, &[0x7b, 0x7d]).unwrap(), "KeyValueObject([])");
    assert_eq!(
        read(false, &[0x7b, 0x27, 1, b'a', 0x11, 1, 0x27, 1, b'b', 0x11, 2, 0x27, 1, b'a', 0x11, 3, 0x7d])
            .unwrap(),
        "KeyValueObject([KeyValueEntry { key: \"a\", value: Int(3) }, KeyValueEntry { key: \"b\", value: Int(2) }])"
    );
}

#[test]
fn uniform_arrays_are_read() {
    assert_eq!(
        read(true, &[0x40, 0x12, 2, 0xff, 0xfe, 0x00, 0x01]).unwrap(),
        "UniformArray(UniformArrayTi16([-2, 1]))"
    );
    assert_eq!(
        read(true, &[0x40, 0x18, 2, 0x3c, 0x00, 0xc0, 0x00]).unwrap(),
        format!(
            "UniformArray(UniformArrayTf16([Real32 {{ bits: {} }}, Real32 {{ bits: {} }}]))",
            1.0f32.to_bits(),
            (-2.0f32).to_bits()
        )
    );
    // flags: bit i of little-endian word w is flag 32 w + i, in either byte order
    for big in [false, true] {
        assert_eq!(
            read(big, &[0x40, 0x10, 10, 0b0000_0101, 0b0000_0010, 0, 0]).unwrap(),
            "UniformArray(UniformArrayTbool([true, false, true, false, false, false, false, false, false, true]))"
        );
    }
    assert_eq!(read(false, &[0x40, 0x10, 0]).unwrap(), "UniformArray(UniformArrayTbool([]))");
    match parse_binary(&stream(false, &[0x40, 0x10, 33, 0, 0, 0, 0x80, 1, 0, 0, 0])).unwrap() {
        ReaderElement::UniformArray(UniformArrayType::UniformArrayTbool(v)) => {
            assert_eq!(v.len(), 33);
            assert!(v[31] && v[32]);
            assert_eq!(v.iter().filter(|b| **b).count(), 2);
        }
        other => panic!("unexpected {:?}", other),
    }
}

#[test]
fn each_binary_error_has_its_input() {
    assert_eq!(parse_binary(&[]).err(), Some(ParseError::UnexpectedEnd));
    assert_eq!(parse_binary(&[0x7e, 0, 0, 0, 0, 0]).err(), Some(ParseError::BadMagic));
    assert_eq!(parse_binary(&[0x7f, 0x62, 0x4a]).err(), Some(ParseError::UnexpectedEnd));
    assert_eq!(
        parse_binary(&[0x7f, 0x62, 0x4a, 0x53, 0x4f, 0]).err(),
        Some(ParseError::UnrecognizedMagic)
    );
    assert_eq!(read(false, &[]), Err(ParseError::UnexpectedEnd));
    assert_eq!(read(false, &[0x13, 1, 2, 3]), Err(ParseError::UnexpectedEnd));
    assert_eq!(read(false, &[0x27, 3, b'a']), Err(ParseError::UnexpectedEnd));
    assert_eq!(read(false, &[0x27, 0xf1]), Err(ParseError::BadLengthMarker));
    assert_eq!(read(false, &[0x27, 2, 0xc3, 0x28]), Err(ParseError::MalformedUtf8));
    assert_eq!(read(false, &[0x27, 1, 0xff]), Err(ParseError::MalformedUtf8));
    assert_eq!(read(false, &[0x26, 0]), Err(ParseError::UndefinedToken));
    for tag in [0x01u8, 0x2c, 0x3a, 0x15, 0x20, 0x41, 0xff] {
        assert_eq!(read(false, &[tag, 0, 0, 0]), Err(ParseError::UnexpectedToken));
    }
    // an end tag where a value must stand
    assert_eq!(read(false, &[0x5d]), Err(ParseError::UnexpectedToken));
    assert_eq!(read(false, &[0x7d]), Err(ParseError::UnexpectedToken));
    assert_eq!(read(false, &[0x5b, 0x7d]), Err(ParseError::UnexpectedToken));
    assert_eq!(read(false, &[0x7b, 0x5d]), Err(ParseError::UnexpectedToken));
    // a key that is no string, a key without a value
    assert_eq!(read(false, &[0x7b, 0x11, 1, 0x11, 1, 0x7d]), Err(ParseError::UnexpectedToken));
    assert_eq!(read(false, &[0x7b, 0x27, 0, 0x7d]), Err(ParseError::UnexpectedToken));
    // containers that never end
    assert_eq!(read(false, &[0x5b, 0x00]), Err(ParseError::UnexpectedEnd));
    assert_eq!(read(false, &[0x7b, 0x27, 0]), Err(ParseError::UnexpectedEnd));
    // uniform arrays
    assert_eq!(read(false, &[0x40, 0x27, 0]), Err(ParseError::NotImplemented));
    assert_eq!(read(false, &[0x40, 0x26, 0]), Err(ParseError::NotImplemented));
    assert_eq!(read(false, &[0x40, 0x30, 0]), Err(ParseError::UnexpectedToken));
    assert_eq!(read(false, &[0x40, 0x13, 2, 0, 0, 0, 0]), Err(ParseError::UnexpectedEnd));
    assert_eq!(read(false, &[0x40, 0x10, 1, 0, 0, 0]), Err(ParseError::UnexpectedEnd));
    assert_eq!(read(false, &[0x40]), Err(ParseError::UnexpectedEnd));
}

#[test]
fn an_input_of_either_kind_is_told_by_its_first_byte() {
    assert_eq!(parse(&[], &vec![]).err(), Some(ParseError::UnexpectedEnd));
    assert_eq!(format!("{:?}", parse(b"[1]", &vec![]).unwrap()), "Array([Int(1)])");
    assert_eq!(
        format!("{:?}", parse(&stream(true, &[0x11, 1]), &vec![]).unwrap()),
        "Int(1)"
    );
    assert_eq!(parse(&[0x7f, 1, 2, 3, 4], &vec![]).err(), Some(ParseError::UnrecognizedMagic));
}
