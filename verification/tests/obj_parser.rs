use gloom::obj::{check_line, find_fault, LineFault, ObjBuilder};

fn chars(s: &str) -> Vec<char> {
    s.chars().collect()
}

fn text(v: &Vec<char>) -> String {
    v.iter().collect()
}

/// A small model: twelve vertices, nineteen texture coordinates, ten
/// normals and twenty triangles, with comments in between.
fn sample_obj() -> String {
    let mut s = String::new();
    s.push_str("# sample model\n");
    s.push_str("o sample\n");
    for i in 0..12 {
        s.push_str(&format!("v {}.0 {}.5 -{}.25\n", i, i + 1, i));
    }
    s.push_str("# texture coordinates\n");
    for i in 0..19 {
        s.push_str(&format!("vt 0.{} 0.{}\n", i, 19 - i));
    }
    for i in 0..10 {
        s.push_str(&format!("vn 0.0 {}.0 1.0 # normal {}\n", i % 2, i));
    }
    s.push_str("s off\n");
    for i in 0..20 {
        let a = i % 12 + 1;
        let b = (i + 1) % 12 + 1;
        let c = (i + 2) % 12 + 1;
        s.push_str(&format!("f {}/{}/{} {}/{}/{} {}/{}/{}\n", a, i % 19 + 1, i % 10 + 1, b, i % 19 + 1, i % 10 + 1, c, i % 19 + 1, i % 10 + 1));
    }
    s
}

#[test]
fn test_object_builder() {
    let sample = chars(&sample_obj());
    let obj = ObjBuilder::new().load_checked(&sample).unwrap();
    println!("{:?}", obj);
    assert_eq!(12, obj.vertices.len());
    assert_eq!(19, obj.tex_coords.len());
    assert_eq!(10, obj.normals.len());
    assert_eq!(20, obj.faces.len());
}

#[test]
fn vertex_with_three_coordinates_gets_w_one() {
    let obj = ObjBuilder::new().load_checked(&chars("v 1.5 -2 3e2\n")).unwrap();
    assert_eq!(obj.vertices.len(), 1);
    let v = &obj.vertices[0];
    assert_eq!(text(&v.x), "1.5");
    assert_eq!(text(&v.y), "-2");
    assert_eq!(text(&v.z), "3e2");
    assert_eq!(text(&v.w), "1.0");
}

#[test]
fn vertex_with_four_or_more_coordinates() {
    let obj = ObjBuilder::new().load_checked(&chars("v 1 2 3 0.5 9 # tail\n")).unwrap();
    let v = &obj.vertices[0];
    assert_eq!(text(&v.w), "0.5");
}

#[test]
fn tex_coords_default_to_zero() {
    let obj = ObjBuilder::new().load_checked(&chars("vt 0.25\nvt 0.5 0.75\nvt 1 2 3")).unwrap();
    assert_eq!(obj.tex_coords.len(), 3);
    assert_eq!(text(&obj.tex_coords[0].u), "0.25");
    assert_eq!(text(&obj.tex_coords[0].v), "0.0");
    assert_eq!(text(&obj.tex_coords[0].w), "0.0");
    assert_eq!(text(&obj.tex_coords[1].v), "0.75");
    assert_eq!(text(&obj.tex_coords[1].w), "0.0");
    assert_eq!(text(&obj.tex_coords[2].w), "3");
}

#[test]
fn face_corners_parse_indices_and_zero_for_missing() {
    let obj = ObjBuilder::new().load_checked(&chars("f 1/2/3 4//6 7/x/9/10 +8/08/4294967296\n")).unwrap();
    assert_eq!(obj.faces.len(), 1);
    assert_eq!(obj.faces[0], vec![(1, 2, 3), (4, 0, 6), (7, 0, 9), (8, 8, 0)]);
}

#[test]
fn empty_face_and_comment_after_corners() {
    let obj = ObjBuilder::new().load_checked(&chars("f\nf 1/1/1 # 2/2/2\n")).unwrap();
    assert_eq!(obj.faces.len(), 2);
    assert_eq!(obj.faces[0], vec![]);
    assert_eq!(obj.faces[1], vec![(1, 1, 1)]);
}

#[test]
fn comments_and_unknown_keywords_change_nothing() {
    let obj = ObjBuilder::new()
        .load_checked(&chars("# v 1 2 3\n  # indented comment\nvp 1 2\nl 1 2\nmtllib a.mtl\nusemtl m\ng group\n"))
        .unwrap();
    assert_eq!(obj.vertices.len(), 0);
    assert_eq!(obj.tex_coords.len(), 0);
    assert_eq!(obj.normals.len(), 0);
    assert_eq!(obj.faces.len(), 0);
    assert_eq!(obj.lines.len(), 0);
}

#[test]
fn crlf_line_endings() {
    let obj = ObjBuilder::new().load_checked(&chars("v 1 2 3\r\nvn 0 0 1\r\n")).unwrap();
    assert_eq!(text(&obj.vertices[0].z), "3");
    assert_eq!(text(&obj.normals[0].z), "1");
}

#[test]
fn each_fault_is_reported() {
    assert_eq!(find_fault(&chars("v 1 2 3\n\nv 1 2 3\n")), Some(LineFault::MissingKeyword));
    assert_eq!(find_fault(&chars("   \n")), Some(LineFault::MissingKeyword));
    assert_eq!(find_fault(&chars("v 1 2\n")), Some(LineFault::VertexArity(2)));
    assert_eq!(find_fault(&chars("v 1 2 # 3\n")), Some(LineFault::VertexArity(2)));
    assert_eq!(find_fault(&chars("vt\n")), Some(LineFault::TexCoordArity(0)));
    assert_eq!(find_fault(&chars("vt 1 2 3 4\n")), Some(LineFault::TexCoordArity(4)));
    assert_eq!(find_fault(&chars("vn 1 2\n")), Some(LineFault::NormalArity(2)));
    assert_eq!(find_fault(&chars("vn 1 2 3 4\n")), Some(LineFault::NormalArity(4)));
    assert_eq!(find_fault(&chars("v 1 two 3\n")), Some(LineFault::BadNumber));
    assert_eq!(find_fault(&chars("f 1/2/3 4/5\n")), Some(LineFault::FaceCorner));
    assert_eq!(find_fault(&chars("f 1\n")), Some(LineFault::FaceCorner));
    assert_eq!(find_fault(&chars("")), None);
    assert_eq!(find_fault(&chars("v 1 2 3 x\n")), Some(LineFault::BadNumber));
    assert_eq!(find_fault(&chars("v 1 2 3 4 x\n")), None);
}

#[test]
fn first_fault_wins() {
    assert_eq!(find_fault(&chars("v 1 2\nvn 1\n")), Some(LineFault::VertexArity(2)));
    assert!(ObjBuilder::new().load_checked(&chars("v 1 2 3\nvn 1\n")).is_err());
}

#[test]
fn reading_in_two_parts_is_reading_the_whole() {
    let a = "v 1 2 3\nvt 0.5\n";
    let b = "vn 0 1 0\nf 1/1/1 1/1/1 1/1/1\n";
    let whole = ObjBuilder::new().load_checked(&chars(&format!("{}{}", a, b))).unwrap();
    let parts = ObjBuilder::new()
        .load_checked(&chars(a))
        .unwrap()
        .load_checked(&chars(b))
        .unwrap();
    assert_eq!(whole.vertices.len(), parts.vertices.len());
    assert_eq!(whole.tex_coords.len(), parts.tex_coords.len());
    assert_eq!(whole.normals.len(), parts.normals.len());
    assert_eq!(whole.faces, parts.faces);
    assert_eq!(text(&whole.normals[0].y), text(&parts.normals[0].y));
}

#[test]
fn generate_buffers_gives_zeros() {
    assert_eq!(ObjBuilder::new().generate_buffers(), (0, 0, 0));
}

#[test]
fn every_coordinate_parses_as_f32() {
    let obj = ObjBuilder::new()
        .load_checked(&chars("v -1.5e3 +.5 inf NaN\nvt 1.\nvn -Infinity 0 1E-2\n"))
        .unwrap();
    for v in &obj.vertices {
        for c in [&v.x, &v.y, &v.z, &v.w] {
            assert!(text(c).parse::<f32>().is_ok());
        }
    }
    for t in &obj.tex_coords {
        for c in [&t.u, &t.v, &t.w] {
            assert!(text(c).parse::<f32>().is_ok());
        }
    }
    for n in &obj.normals {
        for c in [&n.x, &n.y, &n.z] {
            assert!(text(c).parse::<f32>().is_ok());
        }
    }
}

#[test]
fn single_lines() {
    let mut b = ObjBuilder::new();
    let line = chars("vn 0 -1 0 # down");
    assert_eq!(check_line(&line), None);
    b.read_line(&line);
    assert_eq!(b.normals.len(), 1);
    assert_eq!(text(&b.normals[0].y), "-1");
    assert_eq!(check_line(&chars("#")), None);
    assert_eq!(check_line(&chars("vt 1 2 3 4")), Some(LineFault::TexCoordArity(4)));
}

#[test]
fn load_text_appends_to_what_was_read() {
    let b = ObjBuilder::new().load_text(&chars("v 1 2 3\n"));
    let b = b.load_text(&chars("v 4 5 6\nf 1/1/1\n"));
    assert_eq!(b.vertices.len(), 2);
    assert_eq!(text(&b.vertices[0].x), "1");
    assert_eq!(text(&b.vertices[1].x), "4");
    assert_eq!(b.faces.len(), 1);
}
