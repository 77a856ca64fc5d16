//! Schema rendering against the established one-line text form.

use contract_abi::schema::SchemaNode;
use contract_abi::schema::render;

fn leaf(id: &str, tyname: &str) -> SchemaNode {
    SchemaNode::field(id, tyname, Vec::new())
}

fn array_member(n: usize) -> SchemaNode {
    SchemaNode::field(
        &format!("arr{}", n),
        &format!("[u8; {}]", n),
        vec![leaf("_", "u8")],
    )
}

#[test]
fn arrays_with_length() {
    let mut children = Vec::new();
    for n in 1..=64usize {
        if n == 20 {
            continue;
        }
        children.push(array_member(n));
    }
    let root = SchemaNode::field("_", "ArraysWithLength", children);
    assert_eq!(render(&root), "_:ArraysWithLength( arr1:[u8; 1]( _:u8 ) arr2:[u8; 2]( _:u8 ) arr3:[u8; 3]( _:u8 ) arr4:[u8; 4]( _:u8 ) arr5:[u8; 5]( _:u8 ) arr6:[u8; 6]( _:u8 ) arr7:[u8; 7]( _:u8 ) arr8:[u8; 8]( _:u8 ) arr9:[u8; 9]( _:u8 ) arr10:[u8; 10]( _:u8 ) arr11:[u8; 11]( _:u8 ) arr12:[u8; 12]( _:u8 ) arr13:[u8; 13]( _:u8 ) arr14:[u8; 14]( _:u8 ) arr15:[u8; 15]( _:u8 ) arr16:[u8; 16]( _:u8 ) arr17:[u8; 17]( _:u8 ) arr18:[u8; 18]( _:u8 ) arr19:[u8; 19]( _:u8 ) arr21:[u8; 21]( _:u8 ) arr22:[u8; 22]( _:u8 ) arr23:[u8; 23]( _:u8 ) arr24:[u8; 24]( _:u8 ) arr25:[u8; 25]( _:u8 ) arr26:[u8; 26]( _:u8 ) arr27:[u8; 27]( _:u8 ) arr28:[u8; 28]( _:u8 ) arr29:[u8; 29]( _:u8 ) arr30:[u8; 30]( _:u8 ) arr31:[u8; 31]( _:u8 ) arr32:[u8; 32]( _:u8 ) arr33:[u8; 33]( _:u8 ) arr34:[u8; 34]( _:u8 ) arr35:[u8; 35]( _:u8 ) arr36:[u8; 36]( _:u8 ) arr37:[u8; 37]( _:u8 ) arr38:[u8; 38]( _:u8 ) arr39:[u8; 39]( _:u8 ) arr40:[u8; 40]( _:u8 ) arr41:[u8; 41]( _:u8 ) arr42:[u8; 42]( _:u8 ) arr43:[u8; 43]( _:u8 ) arr44:[u8; 44]( _:u8 ) arr45:[u8; 45]( _:u8 ) arr46:[u8; 46]( _:u8 ) arr47:[u8; 47]( _:u8 ) arr48:[u8; 48]( _:u8 ) arr49:[u8; 49]( _:u8 ) arr50:[u8; 50]( _:u8 ) arr51:[u8; 51]( _:u8 ) arr52:[u8; 52]( _:u8 ) arr53:[u8; 53]( _:u8 ) arr54:[u8; 54]( _:u8 ) arr55:[u8; 55]( _:u8 ) arr56:[u8; 56]( _:u8 ) arr57:[u8; 57]( _:u8 ) arr58:[u8; 58]( _:u8 ) arr59:[u8; 59]( _:u8 ) arr60:[u8; 60]( _:u8 ) arr61:[u8; 61]( _:u8 ) arr62:[u8; 62]( _:u8 ) arr63:[u8; 63]( _:u8 ) arr64:[u8; 64]( _:u8 ) )");
}

fn point_node(id: &str) -> SchemaNode {
    SchemaNode::field(
        id,
        "Point",
        vec![leaf("x", "u32"), leaf("y", "u32"), leaf("z", "u32")],
    )
}

fn color_node(id: &str) -> SchemaNode {
    SchemaNode::field(
        id,
        "Color",
        vec![leaf("0", "u32"), leaf("1", "u32"), leaf("2", "u32")],
    )
}

#[test]
fn misc() {
    assert_eq!(render(&leaf("_", "S0")), "_:S0");
    let ss0 = SchemaNode::field("_", "SS0", vec![leaf("0", "S0")]);
    assert_eq!(render(&ss0), "_:SS0( 0:S0 )");
    let s1 = SchemaNode::field(
        "_",
        "S1",
        vec![
            leaf("bool_", "bool"),
            leaf("i8_", "i8"),
            leaf("u8_", "u8"),
            leaf("i16_", "i16"),
            leaf("u16_", "u16"),
            leaf("i32_", "i32"),
            leaf("u32_", "u32"),
            leaf("i64_", "i64"),
            leaf("u64_", "u64"),
            leaf("f32_", "f32"),
            leaf("f64_", "f64"),
            leaf("str_", "&str"),
            leaf("string", "String"),
        ],
    );
    assert_eq!(render(&s1), "_:S1( bool_:bool i8_:i8 u8_:u8 i16_:i16 u16_:u16 i32_:i32 u32_:u32 i64_:i64 u64_:u64 f32_:f32 f64_:f64 str_:&str string:String )");
    let st1 = SchemaNode::field(
        "_",
        "St1",
        vec![
            leaf("0", "bool"),
            leaf("1", "i8"),
            leaf("2", "u8"),
            leaf("3", "i16"),
            leaf("4", "u16"),
            leaf("5", "i32"),
            leaf("6", "u32"),
            leaf("7", "i64"),
            leaf("8", "u64"),
            leaf("9", "f32"),
            leaf("10", "f64"),
            leaf("11", "&str"),
            leaf("12", "String"),
        ],
    );
    assert_eq!(render(&st1), "_:St1( 0:bool 1:i8 2:u8 3:i16 4:u16 5:i32 6:u32 7:i64 8:u64 9:f32 10:f64 11:&str 12:String )");
    let sstring = SchemaNode::field("_", "SString", vec![leaf("0", "String")]);
    assert_eq!(render(&sstring), "_:SString( 0:String )");
    let eee = SchemaNode::field(
        "_",
        "EEE",
        vec![SchemaNode::variant(
            "UUU",
            vec![SchemaNode::field(
                "0",
                "(((),),)",
                vec![SchemaNode::field("0", "((),)", vec![leaf("0", "()")])],
            )],
        )],
    );
    assert_eq!(render(&eee), "_:EEE( UUU|( 0:(((),),)( 0:((),)( 0:() ) ) ) )");
    assert_eq!(render(&color_node("_")), "_:Color( 0:u32 1:u32 2:u32 )");
    assert_eq!(render(&point_node("_")), "_:Point( x:u32 y:u32 z:u32 )");
    let slice_of_points = SchemaNode::field("_", "[Point]", vec![point_node("_")]);
    assert_eq!(
        render(&slice_of_points),
        "_:[Point]( _:Point( x:u32 y:u32 z:u32 ) )"
    );
    let vec_of_points = SchemaNode::field("_", "Vec<Point>", vec![point_node("_")]);
    assert_eq!(
        render(&vec_of_points),
        "_:Vec<Point>( _:Point( x:u32 y:u32 z:u32 ) )"
    );
    let colored_point = SchemaNode::field(
        "_",
        "ColoredPoint",
        vec![point_node("point"), color_node("colour")],
    );
    assert_eq!(
        render(&colored_point),
        "_:ColoredPoint( point:Point( x:u32 y:u32 z:u32 ) colour:Color( 0:u32 1:u32 2:u32 ) )"
    );
    let st_colored_point = SchemaNode::field(
        "_",
        "StColoredPoint",
        vec![point_node("0"), color_node("1")],
    );
    assert_eq!(
        render(&st_colored_point),
        "_:StColoredPoint( 0:Point( x:u32 y:u32 z:u32 ) 1:Color( 0:u32 1:u32 2:u32 ) )"
    );
    let pair = SchemaNode::field("_", "(Color,Point)", vec![color_node("0"), point_node("1")]);
    assert_eq!(
        render(&pair),
        "_:(Color,Point)( 0:Color( 0:u32 1:u32 2:u32 ) 1:Point( x:u32 y:u32 z:u32 ) )"
    );
    let tripple = SchemaNode::field(
        "_",
        "TrippleU32s",
        vec![
            SchemaNode::variant("ColorT", vec![color_node("0")]),
            SchemaNode::variant("ColorS", vec![color_node("color")]),
            SchemaNode::variant(
                "FlatColor",
                vec![leaf("0", "u32"), leaf("1", "u32"), leaf("2", "u32")],
            ),
            SchemaNode::variant("PointT", vec![point_node("0")]),
            SchemaNode::variant("PointS", vec![point_node("point")]),
            SchemaNode::variant("FlatPoint", Vec::new()),
        ],
    );
    assert_eq!(render(&tripple),
               "_:TrippleU32s( ColorT|( 0:Color( 0:u32 1:u32 2:u32 ) ) ColorS|( color:Color( 0:u32 1:u32 2:u32 ) ) FlatColor|( 0:u32 1:u32 2:u32 ) PointT|( 0:Point( x:u32 y:u32 z:u32 ) ) PointS|( point:Point( x:u32 y:u32 z:u32 ) ) FlatPoint| )"
    );
}

#[test]
fn pointer() {
    let link = SchemaNode::field(
        "_",
        "Link",
        vec![
            leaf("data", "i32"),
            leaf("cptr", "*const Link"),
            leaf("ptr", "*mut Link"),
            leaf("nn", "NonNull<Link>"),
            leaf("cref", "&Link"),
            leaf("mref", "&mut Link"),
            leaf("boxed", "Box<Link>"),
            leaf("rc", "Rc<Link>"),
        ],
    );
    assert_eq!(
        render(&link),
        "_:Link( \
            data:i32 \
            cptr:*const Link \
            ptr:*mut Link \
            nn:NonNull<Link> \
            cref:&Link \
            mref:&mut Link \
            boxed:Box<Link> \
            rc:Rc<Link> )"
    );
}

fn is_enum_like(node: &SchemaNode) -> bool {
    node.kind == contract_abi::schema::SchemaKind::Field && node.children.len() > 0
        && node.children[0].kind == contract_abi::schema::SchemaKind::Variant
}

fn schema_to_string(node: &SchemaNode, nth: usize, level: usize) -> String {
    match node.kind {
        contract_abi::schema::SchemaKind::Field => {
            if is_enum_like(node) {
                format!(
                    "{0}type: {1:?},\n{0}name: {2:?},\n{0}cases: {{\n{3}{0}}}",
                    " ".repeat(level * 4),
                    &node.tyname,
                    node.id,
                    members_to_string(node, level)
                )
            } else {
                format!(
                    "{0}type: {1:?},\n{0}name: {2:?},{3}",
                    " ".repeat(level * 4),
                    &node.tyname,
                    node.id,
                    members_to_string(node, level)
                )
            }
        }
        contract_abi::schema::SchemaKind::Variant => format!(
            "{0}{1} => {{\n    {0}type: \"enum_val\",\n    {0}name: {2:?},{3}{0}}}",
            " ".repeat(level * 4),
            nth,
            node.id,
            members_to_string(node, level + 1)
        ),
    }
}

fn members_to_string(node: &SchemaNode, level: usize) -> String {
    let mut s = String::new();
    let mut nth = 0usize;
    for child in node.children.iter() {
        s.push_str(&(schema_to_string(child, nth, level + 1) + &"\n"));
        nth += 1;
    }
    if nth == 0 {
        String::new()
    } else {
        if is_enum_like(node) {
            return s;
        }
        format!("\n{0}fields: [\n{1}{0}]\n", " ".repeat(level * 4), s)
    }
}

#[test]
// walking a hand-authored enum schema reproduces the established layout
fn serde_issue_345() {
    let foo = SchemaNode::field(
        "_",
        "Foo",
        vec![
            SchemaNode::variant("Bar", vec![leaf("a", "u64")]),
            SchemaNode::variant("Bla", vec![leaf("b", "u64")]),
        ],
    );
    assert_eq!(
        schema_to_string(&foo, 0, 0),
        r#"type: "Foo",
name: "_",
cases: {
    0 => {
        type: "enum_val",
        name: "Bar",
        fields: [
            type: "u64",
            name: "a",
        ]
    }
    1 => {
        type: "enum_val",
        name: "Bla",
        fields: [
            type: "u64",
            name: "b",
        ]
    }
}"#
    );
}
