//! Reading Wavefront OBJ text into an [`ObjBuilder`].
//!
//! A line that begins with `#` is a comment. Any other line is split into
//! whitespace-separated words; the first is the keyword, and the arguments
//! are the words after it up to the first one that begins with `#`.
//!
//! * `v x y z [w]`: a vertex; `w` is `1.0` when only three coordinates are
//!   given, and a fifth coordinate or more is ignored.
//! * `vt u [v [w]]`: a texture coordinate; missing ones are `0.0`.
//! * `vn x y z`: a normal.
//! * `f c1 c2 ...`: a face; each corner is `v/t/n` (further `/` pieces are
//!   ignored), each index a `u32`, and an index that is not one reads as 0.
//! * `vp`, `l` and every other keyword are skipped.
//!
//! Coordinates are kept as the text of the number they spell; every one of
//! them is a floating-point literal that `f32::from_str` accepts.

use vstd::prelude::*;

use crate::numbers::{all_float_text, float_text, is_float_text, u32_or_zero, u32_or_zero_chars};
use crate::text::{
    before_comment, comment_start, lemma_args_range, lemma_before_comment_is_prefix, lemma_text_lines_append, split_at_char,
    split_lines, split_on, split_words, starts_with_hash, text_lines, views, words,
};

verus! {

/// A vertex position, `x y z w`, each coordinate the text of a number.
#[derive(Debug)]
pub struct Vertex {
    pub x: Vec<char>,
    pub y: Vec<char>,
    pub z: Vec<char>,
    pub w: Vec<char>,
}

/// A texture coordinate, `u v w`, each the text of a number.
#[derive(Debug)]
pub struct TexCoord {
    pub u: Vec<char>,
    pub v: Vec<char>,
    pub w: Vec<char>,
}

/// A vertex normal, `x y z`, each the text of a number.
#[derive(Debug)]
pub struct Normal {
    pub x: Vec<char>,
    pub y: Vec<char>,
    pub z: Vec<char>,
}

/// One corner of a face: vertex, texture and normal index, each counted
/// from 1, with 0 for an index that is absent.
pub type Corner = (u32, u32, u32);

/// A polygonal face: its corners in order.
pub type Face = Vec<Corner>;

impl View for Vertex {
    type V = Seq<Seq<char>>;

    open spec fn view(&self) -> Seq<Seq<char>> {
        seq![self.x@, self.y@, self.z@, self.w@]
    }
}

impl View for TexCoord {
    type V = Seq<Seq<char>>;

    open spec fn view(&self) -> Seq<Seq<char>> {
        seq![self.u@, self.v@, self.w@]
    }
}

impl View for Normal {
    type V = Seq<Seq<char>>;

    open spec fn view(&self) -> Seq<Seq<char>> {
        seq![self.x@, self.y@, self.z@]
    }
}

/// The elements read so far from OBJ text.
#[derive(Debug)]
pub struct ObjBuilder {
    pub vertices: Vec<Vertex>,
    pub tex_coords: Vec<TexCoord>,
    pub normals: Vec<Normal>,
    pub faces: Vec<Face>,
    pub lines: Vec<u32>,
}

/// What an [`ObjBuilder`] holds: each vertex, texture coordinate and
/// normal as the sequence of its coordinate texts, each face as its corners.
#[verifier::ext_equal]
pub struct ObjModel {
    pub vertices: Seq<Seq<Seq<char>>>,
    pub tex_coords: Seq<Seq<Seq<char>>>,
    pub normals: Seq<Seq<Seq<char>>>,
    pub faces: Seq<Seq<Corner>>,
    pub lines: Seq<u32>,
}

impl View for ObjBuilder {
    type V = ObjModel;

    open spec fn view(&self) -> ObjModel {
        ObjModel {
            vertices: self.vertices@.map_values(|v: Vertex| v@),
            tex_coords: self.tex_coords@.map_values(|t: TexCoord| t@),
            normals: self.normals@.map_values(|n: Normal| n@),
            faces: self.faces@.map_values(|f: Face| f@),
            lines: self.lines@,
        }
    }
}

/// The model with nothing in it.
pub open spec fn empty_model() -> ObjModel {
    ObjModel {
        vertices: Seq::empty(),
        tex_coords: Seq::empty(),
        normals: Seq::empty(),
        faces: Seq::empty(),
        lines: Seq::empty(),
    }
}

/// Why a line cannot be read. Each is an input on which reading stops.
#[derive(PartialEq, Eq, Structural, Clone, Copy, Debug)]
pub enum LineFault {
    /// The line holds no word at all.
    MissingKeyword,
    /// A `v` line with fewer than three coordinates (the count is given).
    VertexArity(usize),
    /// A `vt` line without one, two or three coordinates (the count is given).
    TexCoordArity(usize),
    /// A `vn` line without exactly three coordinates (the count is given).
    NormalArity(usize),
    /// A coordinate that is read is not the text of a number.
    BadNumber,
    /// A face corner with fewer than three `/`-separated pieces.
    FaceCorner,
}

/// The default `w` of a vertex.
pub open spec fn one_text() -> Seq<char> {
    seq!['1', '.', '0']
}

/// The default of a missing texture coordinate.
pub open spec fn zero_text() -> Seq<char> {
    seq!['0', '.', '0']
}

/// The keyword of a vertex line.
pub open spec fn kw_v() -> Seq<char> {
    seq!['v']
}

/// The keyword of a texture-coordinate line.
pub open spec fn kw_vt() -> Seq<char> {
    seq!['v', 't']
}

/// The keyword of a normal line.
pub open spec fn kw_vn() -> Seq<char> {
    seq!['v', 'n']
}

/// The keyword of a face line.
pub open spec fn kw_f() -> Seq<char> {
    seq!['f']
}

/// A line that begins with `#`.
pub open spec fn is_comment_line(line: Seq<char>) -> bool {
    line.len() > 0 && line[0] == '#'
}

/// The first word of a line.
pub open spec fn keyword(line: Seq<char>) -> Seq<char> {
    words(line)[0]
}

/// The words after the keyword, up to a trailing comment.
pub open spec fn line_args(line: Seq<char>) -> Seq<Seq<char>> {
    before_comment(words(line).drop_first())
}

/// The coordinates of a `v` line that are read: the first three if there are
/// exactly three, else the first four.
pub open spec fn vertex_coords(args: Seq<Seq<char>>) -> Seq<Seq<char>> {
    if args.len() == 3 {
        args
    } else {
        args.take(4)
    }
}

/// The corner that a face word stands for.
pub open spec fn corner_of(word: Seq<char>) -> Corner {
    let p = split_on(word, '/');
    (u32_or_zero(p[0]), u32_or_zero(p[1]), u32_or_zero(p[2]))
}

/// Whether some argument has fewer than three `/`-separated pieces.
pub open spec fn has_short_corner(args: Seq<Seq<char>>) -> bool {
    exists|i: int| 0 <= i < args.len() && #[trigger] split_on(args[i], '/').len() < 3
}

/// Why `line` cannot be read, or `None` if it can.
pub open spec fn line_fault(line: Seq<char>) -> Option<LineFault> {
    if is_comment_line(line) {
        None
    } else if words(line).len() == 0 {
        Some(LineFault::MissingKeyword)
    } else {
        let kw = keyword(line);
        let args = line_args(line);
        if kw == kw_v() {
            if args.len() < 3 {
                Some(LineFault::VertexArity(args.len() as usize))
            } else if !all_float_text(vertex_coords(args)) {
                Some(LineFault::BadNumber)
            } else {
                None
            }
        } else if kw == kw_vt() {
            if args.len() < 1 || args.len() > 3 {
                Some(LineFault::TexCoordArity(args.len() as usize))
            } else if !all_float_text(args) {
                Some(LineFault::BadNumber)
            } else {
                None
            }
        } else if kw == kw_vn() {
            if args.len() != 3 {
                Some(LineFault::NormalArity(args.len() as usize))
            } else if !all_float_text(args) {
                Some(LineFault::BadNumber)
            } else {
                None
            }
        } else if kw == kw_f() {
            if has_short_corner(args) {
                Some(LineFault::FaceCorner)
            } else {
                None
            }
        } else {
            None
        }
    }
}

/// What reading `line` does to `m`.
pub open spec fn apply_line(m: ObjModel, line: Seq<char>) -> ObjModel {
    if is_comment_line(line) || words(line).len() == 0 {
        m
    } else {
        let kw = keyword(line);
        let a = line_args(line);
        if kw == kw_v() {
            let w = if a.len() == 3 {
                one_text()
            } else {
                a[3]
            };
            ObjModel { vertices: m.vertices.push(seq![a[0], a[1], a[2], w]), ..m }
        } else if kw == kw_vt() {
            let v = if a.len() >= 2 {
                a[1]
            } else {
                zero_text()
            };
            let w = if a.len() >= 3 {
                a[2]
            } else {
                zero_text()
            };
            ObjModel { tex_coords: m.tex_coords.push(seq![a[0], v, w]), ..m }
        } else if kw == kw_vn() {
            ObjModel { normals: m.normals.push(seq![a[0], a[1], a[2]]), ..m }
        } else if kw == kw_f() {
            ObjModel { faces: m.faces.push(a.map_values(|c: Seq<char>| corner_of(c))), ..m }
        } else {
            m
        }
    }
}

/// What reading `ls`, line after line, does to `m`.
pub open spec fn apply_lines(m: ObjModel, ls: Seq<Seq<char>>) -> ObjModel
    decreases ls.len(),
{
    if ls.len() == 0 {
        m
    } else {
        apply_line(apply_lines(m, ls.drop_last()), ls.last())
    }
}

/// What reading the text `t` does to `m`.
pub open spec fn apply_text(m: ObjModel, t: Seq<char>) -> ObjModel {
    apply_lines(m, text_lines(t))
}

/// Every line of `t` can be read.
pub open spec fn text_ok(t: Seq<char>) -> bool {
    forall|i: int| 0 <= i < text_lines(t).len() ==> line_fault(#[trigger] text_lines(t)[i]) is None
}

/// `f` is the fault of the first line of `t` that cannot be read.
pub open spec fn first_fault_is(t: Seq<char>, f: LineFault) -> bool {
    exists|i: int|
        0 <= i < text_lines(t).len() && line_fault(#[trigger] text_lines(t)[i]) == Some(f) && (
        forall|j: int| 0 <= j < i ==> line_fault(#[trigger] text_lines(t)[j]) is None)
}

/// Every coordinate held in `m` is the text of a number.
pub open spec fn coords_are_numbers(m: ObjModel) -> bool {
    &&& forall|i: int| 0 <= i < m.vertices.len() ==> all_float_text(#[trigger] m.vertices[i])
    &&& forall|i: int| 0 <= i < m.tex_coords.len() ==> all_float_text(#[trigger] m.tex_coords[i])
    &&& forall|i: int| 0 <= i < m.normals.len() ==> all_float_text(#[trigger] m.normals[i])
}

proof fn lemma_push_map<A, B>(s: Seq<A>, x: A, f: spec_fn(A) -> B)
    ensures
        s.push(x).map_values(f) == s.map_values(f).push(f(x)),
{
    assert(s.push(x).map_values(f) =~= s.map_values(f).push(f(x)));
}

fn copy_text(v: &Vec<char>) -> (r: Vec<char>)
    ensures
        r@ == v@,
{
    let mut r: Vec<char> = Vec::new();
    let mut i: usize = 0;
    while i < v.len()
        invariant
            i <= v.len(),
            r@ == v@.take(i as int),
        decreases v.len() - i,
    {
        r.push(v[i]);
        i += 1;
        assert(r@ =~= v@.take(i as int));
    }
    assert(v@.take(i as int) =~= v@);
    r
}

fn one_vec() -> (r: Vec<char>)
    ensures
        r@ == one_text(),
{
    let r = vec!['1', '.', '0'];
    assert(r@ =~= one_text());
    r
}

fn zero_vec() -> (r: Vec<char>)
    ensures
        r@ == zero_text(),
{
    let r = vec!['0', '.', '0'];
    assert(r@ =~= zero_text());
    r
}

/// Whether `w` spells the keyword `k` (one or two chars, `k1` unused when
/// `two` is false).
fn is_word(w: &Vec<char>, k0: char, k1: char, two: bool) -> (r: bool)
    ensures
        r == (w@ == (if two {
            seq![k0, k1]
        } else {
            seq![k0]
        })),
{
    if two {
        let r = w.len() == 2 && w[0] == k0 && w[1] == k1;
        proof {
            if w@.len() == 2 && w@[0] == k0 && w@[1] == k1 {
                assert(w@ =~= seq![k0, k1]);
            }
        }
        r
    } else {
        let r = w.len() == 1 && w[0] == k0;
        proof {
            if w@.len() == 1 && w@[0] == k0 {
                assert(w@ =~= seq![k0]);
            }
        }
        r
    }
}

/// The words of a line that is not a comment, with the index just past its
/// arguments: the arguments are `ws[1..k]`.
fn line_words(line: &Vec<char>) -> (r: (Vec<Vec<char>>, usize))
    ensures
        views(r.0@) == words(line@),
        r.0@.len() >= 1 ==> 1 <= r.1 <= r.0@.len() && line_args(line@) == views(r.0@).subrange(
            1,
            r.1 as int,
        ),
{
    let ws = split_words(line);
    if ws.len() == 0 {
        return (ws, 0);
    }
    let k = comment_start(&ws, 1);
    proof {
        let v = views(ws@);
        assert forall|j: int| 1 <= j < k implies !starts_with_hash(#[trigger] v[j]) by {
            assert(v[j] == ws@[j]@);
        }
        if k < ws@.len() {
            assert(v[k as int] == ws@[k as int]@);
        }
        lemma_args_range(v, k as int);
    }
    (ws, k)
}

/// Whether every word of `ws[from..to]` is the text of a number.
fn all_numbers(ws: &Vec<Vec<char>>, from: usize, to: usize) -> (r: bool)
    requires
        from <= to <= ws.len(),
    ensures
        r == all_float_text(views(ws@).subrange(from as int, to as int)),
{
    let mut j = from;
    while j < to
        invariant
            from <= j <= to <= ws.len(),
            all_float_text(views(ws@).subrange(from as int, j as int)),
        decreases to - j,
    {
        if !is_float_text(&ws[j]) {
            proof {
                let sub = views(ws@).subrange(from as int, to as int);
                assert(sub[j - from] == ws@[j as int]@);
            }
            return false;
        }
        proof {
            let sub = views(ws@).subrange(from as int, j + 1);
            assert forall|i: int| 0 <= i < sub.len() implies float_text(
                #[trigger] sub[i],
            ) by {
                if i < j - from {
                    assert(sub[i] == views(ws@).subrange(from as int, j as int)[i]);
                } else {
                    assert(sub[i] == ws@[j as int]@);
                }
            }
        }
        j += 1;
    }
    true
}

/// Why `line` cannot be read, or `None` if it can (see [`line_fault`]).
pub fn check_line(line: &Vec<char>) -> (r: Option<LineFault>)
    ensures
        r == line_fault(line@),
{
    if line.len() > 0 && line[0] == '#' {
        return None;
    }
    let (ws, k) = line_words(line);
    if ws.len() == 0 {
        return Some(LineFault::MissingKeyword);
    }
    let ghost args = line_args(line@);
    let n = k - 1;
    assert(args.len() == n);
    let kw = &ws[0];
    assert(kw@ == keyword(line@));
    if is_word(kw, 'v', ' ', false) {
        if n < 3 {
            return Some(LineFault::VertexArity(n));
        }
        let to = if n == 3 {
            4
        } else {
            5
        };
        assert(vertex_coords(args) =~= views(ws@).subrange(1, to as int));
        if !all_numbers(&ws, 1, to) {
            return Some(LineFault::BadNumber);
        }
        None
    } else if is_word(kw, 'v', 't', true) {
        if n < 1 || n > 3 {
            return Some(LineFault::TexCoordArity(n));
        }
        if !all_numbers(&ws, 1, k) {
            return Some(LineFault::BadNumber);
        }
        None
    } else if is_word(kw, 'v', 'n', true) {
        if n != 3 {
            return Some(LineFault::NormalArity(n));
        }
        if !all_numbers(&ws, 1, k) {
            return Some(LineFault::BadNumber);
        }
        None
    } else if is_word(kw, 'f', ' ', false) {
        let mut j: usize = 1;
        assert(line_fault(line@) == if has_short_corner(args) {
            Some(LineFault::FaceCorner)
        } else {
            None
        });
        while j < k
            invariant
                1 <= j <= k <= ws@.len(),
                args == views(ws@).subrange(1, k as int),
                line_fault(line@) == if has_short_corner(args) {
                    Some(LineFault::FaceCorner)
                } else {
                    None
                },
                forall|i: int| 0 <= i < j - 1 ==> #[trigger] split_on(args[i], '/').len() >= 3,
            decreases k - j,
        {
            let pieces = split_at_char(&ws[j], '/');
            assert(args[j - 1] == ws@[j as int]@);
            if pieces.len() < 3 {
                assert(split_on(args[j - 1], '/').len() < 3);
                assert(has_short_corner(args));
                return Some(LineFault::FaceCorner);
            }
            j += 1;
        }
        None
    } else {
        None
    }
}

impl ObjBuilder {
    /// A builder that holds nothing yet.
    pub fn new() -> (r: ObjBuilder)
        ensures
            r@ == empty_model(),
    {
        let r = ObjBuilder {
            vertices: Vec::new(),
            tex_coords: Vec::new(),
            normals: Vec::new(),
            faces: Vec::new(),
            lines: Vec::new(),
        };
        assert(r@ =~= empty_model());
        r
    }

    /// Reads one line.
    pub fn read_line(&mut self, line: &Vec<char>)
        requires
            line_fault(line@) is None,
        ensures
            final(self)@ == apply_line(old(self)@, line@),
    {
        if line.len() > 0 && line[0] == '#' {
            return;
        }
        let (ws, k) = line_words(line);
        if ws.len() == 0 {
            return;
        }
        let ghost a = line_args(line@);
        let ghost before = self@;
        let n = k - 1;
        assert(a.len() == n);
        let kw = &ws[0];
        assert(kw@ == keyword(line@));
        if is_word(kw, 'v', ' ', false) {
            assert(a[0] == ws@[1]@ && a[1] == ws@[2]@ && a[2] == ws@[3]@);
            let w = if n == 3 {
                one_vec()
            } else {
                assert(a[3] == ws@[4]@);
                copy_text(&ws[4])
            };
            let v = Vertex { x: copy_text(&ws[1]), y: copy_text(&ws[2]), z: copy_text(&ws[3]), w };
            proof {
                lemma_push_map(self.vertices@, v, |v: Vertex| v@);
            }
            self.vertices.push(v);
            assert(self@ =~= apply_line(before, line@));
        } else if is_word(kw, 'v', 't', true) {
            assert(a[0] == ws@[1]@);
            let v = if n >= 2 {
                assert(a[1] == ws@[2]@);
                copy_text(&ws[2])
            } else {
                zero_vec()
            };
            let w = if n >= 3 {
                assert(a[2] == ws@[3]@);
                copy_text(&ws[3])
            } else {
                zero_vec()
            };
            let t = TexCoord { u: copy_text(&ws[1]), v, w };
            proof {
                lemma_push_map(self.tex_coords@, t, |t: TexCoord| t@);
            }
            self.tex_coords.push(t);
            assert(self@ =~= apply_line(before, line@));
        } else if is_word(kw, 'v', 'n', true) {
            assert(a[0] == ws@[1]@ && a[1] == ws@[2]@ && a[2] == ws@[3]@);
            let nv = Normal { x: copy_text(&ws[1]), y: copy_text(&ws[2]), z: copy_text(&ws[3]) };
            proof {
                lemma_push_map(self.normals@, nv, |n: Normal| n@);
            }
            self.normals.push(nv);
            assert(self@ =~= apply_line(before, line@));
        } else if is_word(kw, 'f', ' ', false) {
            let mut face: Face = Vec::new();
            let mut j: usize = 1;
            while j < k
                invariant
                    1 <= j <= k <= ws@.len(),
                    a == views(ws@).subrange(1, k as int),
                    !has_short_corner(a),
                    face@ == a.take(j - 1).map_values(|c: Seq<char>| corner_of(c)),
                decreases k - j,
            {
                let pieces = split_at_char(&ws[j], '/');
                assert(a[j - 1] == ws@[j as int]@);
                assert(split_on(a[j - 1], '/').len() >= 3);
                assert(pieces@[0]@ == split_on(a[j - 1], '/')[0]);
                assert(pieces@[1]@ == split_on(a[j - 1], '/')[1]);
                assert(pieces@[2]@ == split_on(a[j - 1], '/')[2]);
                let corner = (
                    u32_or_zero_chars(&pieces[0]),
                    u32_or_zero_chars(&pieces[1]),
                    u32_or_zero_chars(&pieces[2]),
                );
                face.push(corner);
                j += 1;
                assert(face@ =~= a.take(j - 1).map_values(|c: Seq<char>| corner_of(c)));
            }
            assert(a.take(k - 1) =~= a);
            proof {
                lemma_push_map(self.faces@, face, |f: Face| f@);
            }
            self.faces.push(face);
            assert(self@ =~= apply_line(before, line@));
        }
    }
}

/// The first line of `text` that cannot be read, or `None` if every line
/// can.
pub fn find_fault(text: &Vec<char>) -> (r: Option<LineFault>)
    ensures
        r is None <==> text_ok(text@),
        r matches Some(f) ==> first_fault_is(text@, f),
{
    let ls = split_lines(text);
    let ghost tl = text_lines(text@);
    let mut k: usize = 0;
    while k < ls.len()
        invariant
            views(ls@) == tl,
            tl == text_lines(text@),
            k <= ls.len(),
            forall|j: int| 0 <= j < k ==> line_fault(#[trigger] tl[j]) is None,
        decreases ls.len() - k,
    {
        assert(ls@[k as int]@ == tl[k as int]);
        let f = check_line(&ls[k]);
        if let Some(fault) = f {
            assert(first_fault_is(text@, fault)) by {
                assert(line_fault(tl[k as int]) == Some(fault));
            }
            assert(!text_ok(text@)) by {
                assert(line_fault(tl[k as int]) is Some);
            }
            return Some(fault);
        }
        k += 1;
    }
    None
}

impl ObjBuilder {
    /// Reads every line of `text` in order.
    pub fn load_text(self, text: &Vec<char>) -> (r: ObjBuilder)
        requires
            text_ok(text@),
        ensures
            r@ == apply_text(self@, text@),
            coords_are_numbers(self@) ==> coords_are_numbers(r@),
    {
        let ls = split_lines(text);
        let ghost tl = text_lines(text@);
        let ghost m0 = self@;
        let mut b = self;
        let mut k: usize = 0;
        assert(tl.take(0) =~= Seq::<Seq<char>>::empty());
        while k < ls.len()
            invariant
                views(ls@) == tl,
                tl == text_lines(text@),
                text_ok(text@),
                k <= ls.len(),
                b@ == apply_lines(m0, tl.take(k as int)),
            decreases ls.len() - k,
        {
            assert(ls@[k as int]@ == tl[k as int]);
            assert(line_fault(tl[k as int]) is None);
            b.read_line(&ls[k]);
            assert(tl.take(k + 1).drop_last() =~= tl.take(k as int));
            k += 1;
        }
        assert(tl.take(k as int) =~= tl);
        proof {
            if coords_are_numbers(m0) {
                lemma_text_keeps_numbers(m0, text@);
            }
        }
        b
    }

    /// Reads `text` if every line of it can be read; otherwise gives the
    /// fault of the first line that cannot.
    pub fn load_checked(self, text: &Vec<char>) -> (r: Result<ObjBuilder, LineFault>)
        ensures
            match r {
                Ok(b) => {
                    &&& text_ok(text@)
                    &&& b@ == apply_text(self@, text@)
                    &&& coords_are_numbers(self@) ==> coords_are_numbers(b@)
                },
                Err(f) => !text_ok(text@) && first_fault_is(text@, f),
            },
    {
        match find_fault(text) {
            Some(f) => Err(f),
            None => Ok(self.load_text(text)),
        }
    }

    /// The buffer names `(vao, vbo, ibo)` of the mesh: none is generated, so
    /// all three are 0.
    pub fn generate_buffers(self) -> (r: (u32, u32, u32))
        ensures
            r == (0u32, 0u32, 0u32),
    {
        let (vao, vbo, ibo) = (0, 0, 0);
        (vao, vbo, ibo)
    }
}

proof fn lemma_default_texts_are_numbers()
    ensures
        float_text(one_text()),
        float_text(zero_text()),
{
    let o = one_text();
    let z = zero_text();
    assert(crate::numbers::digits_end(o, 3) == 3);
    assert(crate::numbers::digits_end(o, 2) == 3);
    assert(crate::numbers::digits_end(o, 1) == 1);
    assert(crate::numbers::digits_end(o, 0) == 1);
    assert(crate::numbers::number_at(o, 0));
    assert(crate::numbers::digits_end(z, 3) == 3);
    assert(crate::numbers::digits_end(z, 2) == 3);
    assert(crate::numbers::digits_end(z, 1) == 1);
    assert(crate::numbers::digits_end(z, 0) == 1);
    assert(crate::numbers::number_at(z, 0));
}

/// Reading a line that can be read keeps every coordinate the text of a
/// number.
pub proof fn lemma_line_keeps_numbers(m: ObjModel, line: Seq<char>)
    requires
        coords_are_numbers(m),
        line_fault(line) is None,
    ensures
        coords_are_numbers(apply_line(m, line)),
{
    lemma_default_texts_are_numbers();
    if !is_comment_line(line) && words(line).len() > 0 {
        let kw = keyword(line);
        let a = line_args(line);
        let r = apply_line(m, line);
        if kw == kw_v() {
            let vc = vertex_coords(a);
            assert(vc[0] == a[0] && vc[1] == a[1] && vc[2] == a[2]);
            if a.len() != 3 {
                assert(vc[3] == a[3]);
            }
            let nv = r.vertices.last();
            assert(all_float_text(nv));
            assert forall|i: int| 0 <= i < r.vertices.len() implies all_float_text(
                #[trigger] r.vertices[i],
            ) by {
                if i < m.vertices.len() {
                    assert(r.vertices[i] == m.vertices[i]);
                }
            }
        } else if kw == kw_vt() {
            assert forall|i: int| 0 <= i < r.tex_coords.len() implies all_float_text(
                #[trigger] r.tex_coords[i],
            ) by {
                if i < m.tex_coords.len() {
                    assert(r.tex_coords[i] == m.tex_coords[i]);
                }
            }
        } else if kw == kw_vn() {
            assert forall|i: int| 0 <= i < r.normals.len() implies all_float_text(
                #[trigger] r.normals[i],
            ) by {
                if i < m.normals.len() {
                    assert(r.normals[i] == m.normals[i]);
                }
            }
        }
    }
}

proof fn lemma_lines_keep_numbers(m: ObjModel, ls: Seq<Seq<char>>)
    requires
        coords_are_numbers(m),
        forall|i: int| 0 <= i < ls.len() ==> line_fault(#[trigger] ls[i]) is None,
    ensures
        coords_are_numbers(apply_lines(m, ls)),
    decreases ls.len(),
{
    if ls.len() > 0 {
        let init = ls.drop_last();
        assert forall|i: int| 0 <= i < init.len() implies line_fault(#[trigger] init[i]) is None by {
            assert(init[i] == ls[i]);
        }
        lemma_lines_keep_numbers(m, init);
        assert(line_fault(ls[ls.len() - 1]) is None);
        lemma_line_keeps_numbers(apply_lines(m, init), ls.last());
    }
}

/// Reading a text whose every line can be read keeps every coordinate the
/// text of a number, so each one parses as an `f32`.
pub proof fn lemma_text_keeps_numbers(m: ObjModel, t: Seq<char>)
    requires
        coords_are_numbers(m),
        text_ok(t),
    ensures
        coords_are_numbers(apply_text(m, t)),
{
    lemma_lines_keep_numbers(m, text_lines(t));
}

proof fn lemma_apply_lines_append(m: ObjModel, l1: Seq<Seq<char>>, l2: Seq<Seq<char>>)
    ensures
        apply_lines(m, l1 + l2) == apply_lines(apply_lines(m, l1), l2),
    decreases l2.len(),
{
    if l2.len() == 0 {
        assert(l1 + l2 =~= l1);
    } else {
        lemma_apply_lines_append(m, l1, l2.drop_last());
        assert((l1 + l2).drop_last() =~= l1 + l2.drop_last());
        assert((l1 + l2).last() == l2.last());
    }
}

/// Reading two texts one after the other is reading their concatenation,
/// when the first is empty or ends with a line break; and the concatenation
/// can be read exactly when both parts can.
pub proof fn law_read_concatenation(m: ObjModel, t1: Seq<char>, t2: Seq<char>)
    requires
        t1.len() == 0 || t1.last() == '\n',
    ensures
        apply_text(apply_text(m, t1), t2) == apply_text(m, t1 + t2),
        text_ok(t1 + t2) <==> text_ok(t1) && text_ok(t2),
{
    lemma_text_lines_append(t1, t2);
    lemma_apply_lines_append(m, text_lines(t1), text_lines(t2));
    let l1 = text_lines(t1);
    let l2 = text_lines(t2);
    let l = text_lines(t1 + t2);
    if text_ok(t1) && text_ok(t2) {
        assert forall|i: int| 0 <= i < l.len() implies line_fault(#[trigger] l[i]) is None by {
            if i < l1.len() {
                assert(l[i] == l1[i]);
            } else {
                assert(l[i] == l2[i - l1.len()]);
            }
        }
    }
    if text_ok(t1 + t2) {
        assert forall|i: int| 0 <= i < l1.len() implies line_fault(#[trigger] l1[i]) is None by {
            assert(l[i] == l1[i]);
        }
        assert forall|i: int| 0 <= i < l2.len() implies line_fault(#[trigger] l2[i]) is None by {
            assert(l[i + l1.len()] == l2[i]);
        }
    }
}

/// The number of lines of `ls` that are read as an element with keyword
/// `kw` (lines that are not comments and whose first word is `kw`).
pub open spec fn count_keyword(ls: Seq<Seq<char>>, kw: Seq<char>) -> nat
    decreases ls.len(),
{
    if ls.len() == 0 {
        0
    } else {
        count_keyword(ls.drop_last(), kw) + if has_keyword(ls.last(), kw) {
            1nat
        } else {
            0nat
        }
    }
}

/// `a` is a prefix of `b`.
pub open spec fn is_prefix<A>(a: Seq<A>, b: Seq<A>) -> bool {
    a.len() <= b.len() && b.take(a.len() as int) == a
}

/// What reading appends to a model: the old content stays, in front.
pub open spec fn extends(m: ObjModel, r: ObjModel) -> bool {
    &&& is_prefix(m.vertices, r.vertices)
    &&& is_prefix(m.tex_coords, r.tex_coords)
    &&& is_prefix(m.normals, r.normals)
    &&& is_prefix(m.faces, r.faces)
    &&& r.lines == m.lines
}

proof fn lemma_prefix_trans<A>(a: Seq<A>, b: Seq<A>, c: Seq<A>)
    requires
        is_prefix(a, b),
        is_prefix(b, c),
    ensures
        is_prefix(a, c),
{
    assert(c.take(a.len() as int) =~= b.take(a.len() as int));
}

proof fn lemma_prefix_push<A>(a: Seq<A>, x: A)
    ensures
        is_prefix(a, a.push(x)),
{
    assert(a.push(x).take(a.len() as int) =~= a);
}

proof fn lemma_prefix_refl<A>(a: Seq<A>)
    ensures
        is_prefix(a, a),
{
    assert(a.take(a.len() as int) =~= a);
}

/// Whether `line` is read as an element with keyword `kw`.
pub open spec fn has_keyword(line: Seq<char>, kw: Seq<char>) -> bool {
    !is_comment_line(line) && words(line).len() > 0 && keyword(line) == kw
}

proof fn lemma_keywords_differ()
    ensures
        kw_v() != kw_vt(),
        kw_v() != kw_vn(),
        kw_v() != kw_f(),
        kw_vt() != kw_vn(),
        kw_vt() != kw_f(),
        kw_vn() != kw_f(),
{
    assert(kw_v().len() != kw_vt().len());
    assert(kw_v().len() != kw_vn().len());
    assert(kw_v()[0] != kw_f()[0]);
    assert(kw_vt()[1] != kw_vn()[1]);
    assert(kw_vt().len() != kw_f().len());
    assert(kw_vn().len() != kw_f().len());
}

/// Reading a line appends at most one element, to the list its keyword
/// names, and changes nothing else.
proof fn lemma_line_appends(m: ObjModel, line: Seq<char>)
    ensures
        extends(m, apply_line(m, line)),
        apply_line(m, line).vertices.len() == m.vertices.len() + if has_keyword(line, kw_v()) {
            1int
        } else {
            0int
        },
        apply_line(m, line).tex_coords.len() == m.tex_coords.len() + if has_keyword(
            line,
            kw_vt(),
        ) {
            1int
        } else {
            0int
        },
        apply_line(m, line).normals.len() == m.normals.len() + if has_keyword(line, kw_vn()) {
            1int
        } else {
            0int
        },
        apply_line(m, line).faces.len() == m.faces.len() + if has_keyword(line, kw_f()) {
            1int
        } else {
            0int
        },
{
    lemma_keywords_differ();
    let r = apply_line(m, line);
    lemma_prefix_refl(m.vertices);
    lemma_prefix_refl(m.tex_coords);
    lemma_prefix_refl(m.normals);
    lemma_prefix_refl(m.faces);
    if !is_comment_line(line) && words(line).len() > 0 {
        let kw = keyword(line);
        if kw == kw_v() {
            lemma_prefix_push(m.vertices, r.vertices.last());
            assert(r.vertices == m.vertices.push(r.vertices.last()));
        } else if kw == kw_vt() {
            lemma_prefix_push(m.tex_coords, r.tex_coords.last());
            assert(r.tex_coords == m.tex_coords.push(r.tex_coords.last()));
        } else if kw == kw_vn() {
            lemma_prefix_push(m.normals, r.normals.last());
            assert(r.normals == m.normals.push(r.normals.last()));
        } else if kw == kw_f() {
            lemma_prefix_push(m.faces, r.faces.last());
            assert(r.faces == m.faces.push(r.faces.last()));
        }
    }
}

proof fn lemma_lines_append(m: ObjModel, ls: Seq<Seq<char>>)
    ensures
        extends(m, apply_lines(m, ls)),
        apply_lines(m, ls).vertices.len() == m.vertices.len() + count_keyword(ls, kw_v()),
        apply_lines(m, ls).tex_coords.len() == m.tex_coords.len() + count_keyword(ls, kw_vt()),
        apply_lines(m, ls).normals.len() == m.normals.len() + count_keyword(ls, kw_vn()),
        apply_lines(m, ls).faces.len() == m.faces.len() + count_keyword(ls, kw_f()),
    decreases ls.len(),
{
    if ls.len() == 0 {
        lemma_prefix_refl(m.vertices);
        lemma_prefix_refl(m.tex_coords);
        lemma_prefix_refl(m.normals);
        lemma_prefix_refl(m.faces);
    } else {
        let mid = apply_lines(m, ls.drop_last());
        lemma_lines_append(m, ls.drop_last());
        lemma_line_appends(mid, ls.last());
        let r = apply_lines(m, ls);
        lemma_prefix_trans(m.vertices, mid.vertices, r.vertices);
        lemma_prefix_trans(m.tex_coords, mid.tex_coords, r.tex_coords);
        lemma_prefix_trans(m.normals, mid.normals, r.normals);
        lemma_prefix_trans(m.faces, mid.faces, r.faces);
    }
}

/// Reading a text only appends: what was read before stays in front of each
/// list, and each list grows by the number of lines with its keyword (`v`
/// for vertices, `vt` for texture coordinates, `vn` for normals, `f` for
/// faces); the line elements are never filled.
pub proof fn law_read_appends(m: ObjModel, t: Seq<char>)
    ensures
        extends(m, apply_text(m, t)),
        apply_text(m, t).vertices.len() == m.vertices.len() + count_keyword(text_lines(t), kw_v()),
        apply_text(m, t).tex_coords.len() == m.tex_coords.len() + count_keyword(
            text_lines(t),
            kw_vt(),
        ),
        apply_text(m, t).normals.len() == m.normals.len() + count_keyword(text_lines(t), kw_vn()),
        apply_text(m, t).faces.len() == m.faces.len() + count_keyword(text_lines(t), kw_f()),
{
    lemma_lines_append(m, text_lines(t));
}

/// A comment line, and a line whose keyword is none of `v`, `vt`, `vn` and
/// `f` (such as `vp`, `l`, `o`, `g`), can always be read and changes
/// nothing.
pub proof fn law_skipped_lines(m: ObjModel, line: Seq<char>)
    requires
        is_comment_line(line) || (words(line).len() > 0 && keyword(line) != kw_v() && keyword(line)
            != kw_vt() && keyword(line) != kw_vn() && keyword(line) != kw_f()),
    ensures
        line_fault(line) is None,
        apply_line(m, line) == m,
{
}

/// The corner that a face word `v/t/n...` stands for: its first three
/// `/`-separated pieces, each read as a `u32`, or 0 where it is not one.
pub open spec fn corner_from_pieces(p: Seq<Seq<char>>) -> Corner {
    (u32_or_zero(p[0]), u32_or_zero(p[1]), u32_or_zero(p[2]))
}

/// Reading a line that can be read appends, to the list its first word
/// names, the element made of the words that follow it, in order, up to a
/// word that begins with `#`, and changes nothing else:
/// * `v x y z [w ...]` appends `(x, y, z, w)`, with `w` the text `1.0` when
///   exactly three coordinates are given;
/// * `vt u [v [w]]` appends `(u, v, w)`, a missing one being `0.0`;
/// * `vn x y z` appends `(x, y, z)`;
/// * `f c1 ... cn` appends the face whose i-th corner is read from the
///   i-th corner word.
/// Here `n` is the number of words after the first one before a comment:
/// these words are the arguments of the line, in order, none of them begins
/// with `#`, and the word after them, if any, does.
pub proof fn law_read_line_element(m: ObjModel, line: Seq<char>)
    requires
        line_fault(line) is None,
        !is_comment_line(line),
        words(line).len() > 0,
    ensures
        ({
            let w = words(line);
            let n = line_args(line).len();
            let r = apply_line(m, line);
            &&& n + 1 <= w.len()
            &&& forall|i: int| 0 <= i < n ==> #[trigger] line_args(line)[i] == w[i + 1]
            &&& forall|i: int| 1 <= i <= n ==> !starts_with_hash(#[trigger] w[i])
            &&& n + 1 < w.len() ==> starts_with_hash(w[n as int + 1])
            &&& w[0] == seq!['v'] ==> n >= 3 && r == ObjModel {
                vertices: m.vertices.push(
                    seq![w[1], w[2], w[3], if n == 3 {
                        seq!['1', '.', '0']
                    } else {
                        w[4]
                    }],
                ),
                ..m
            }
            &&& w[0] == seq!['v', 't'] ==> 1 <= n <= 3 && r == ObjModel {
                tex_coords: m.tex_coords.push(
                    seq![w[1], if n >= 2 {
                        w[2]
                    } else {
                        seq!['0', '.', '0']
                    }, if n >= 3 {
                        w[3]
                    } else {
                        seq!['0', '.', '0']
                    }],
                ),
                ..m
            }
            &&& w[0] == seq!['v', 'n'] ==> n == 3 && r == ObjModel {
                normals: m.normals.push(seq![w[1], w[2], w[3]]),
                ..m
            }
            &&& w[0] == seq!['f'] ==> r == ObjModel {
                faces: m.faces.push(
                    Seq::new(n, |i: int| corner_from_pieces(split_on(w[i + 1], '/'))),
                ),
                ..m
            }
        }),
{
    let w = words(line);
    let a = line_args(line);
    lemma_before_comment_is_prefix(w.drop_first());
    assert forall|i: int| 0 <= i < a.len() implies #[trigger] a[i] == w[i + 1] by {
        assert(a[i] == w.drop_first()[i]);
    }
    assert forall|i: int| 1 <= i <= a.len() implies !starts_with_hash(#[trigger] w[i]) by {
        assert(w[i] == w.drop_first()[i - 1]);
    }
    if a.len() + 1 < w.len() {
        assert(w[a.len() as int + 1] == w.drop_first()[a.len() as int]);
    }
    assert(kw_v() =~= seq!['v']);
    assert(kw_vt() =~= seq!['v', 't']);
    assert(kw_vn() =~= seq!['v', 'n']);
    assert(kw_f() =~= seq!['f']);
    let r = apply_line(m, line);
    let n = a.len();
    assert(n + 1 <= w.len());
    let (sv, svt, svn, sf) = (seq!['v'], seq!['v', 't'], seq!['v', 'n'], seq!['f']);
    assert(sv != svt && sv != svn && sv != sf && svt != svn && svt != sf && svn != sf) by {
        assert(sv.len() != svt.len());
        assert(sv.len() != svn.len());
        assert(sv[0] != sf[0]);
        assert(svt[1] != svn[1]);
        assert(svt.len() != sf.len());
        assert(svn.len() != sf.len());
    }
    if w[0] == sv {
        assert(r =~= ObjModel {
            vertices: m.vertices.push(
                seq![w[1], w[2], w[3], if n == 3 {
                    seq!['1', '.', '0']
                } else {
                    w[4]
                }],
            ),
            ..m
        });
    } else if w[0] == svt {
        assert(r =~= ObjModel {
            tex_coords: m.tex_coords.push(
                seq![w[1], if n >= 2 {
                    w[2]
                } else {
                    seq!['0', '.', '0']
                }, if n >= 3 {
                    w[3]
                } else {
                    seq!['0', '.', '0']
                }],
            ),
            ..m
        });
    } else if w[0] == svn {
        assert(r =~= ObjModel { normals: m.normals.push(seq![w[1], w[2], w[3]]), ..m });
    } else if w[0] == sf {
        assert(a.map_values(|c: Seq<char>| corner_of(c)) =~= Seq::new(
            n,
            |i: int| corner_from_pieces(split_on(w[i + 1], '/')),
        ));
        assert(r =~= ObjModel {
            faces: m.faces.push(Seq::new(n, |i: int| corner_from_pieces(split_on(w[i + 1], '/')))),
            ..m
        });
    }
}

/// The lines that cannot be read, by what is wrong with them (`w` the words
/// of the line, `n` the number of words after the first one before a
/// comment): a line with no word; a `v` line with fewer than three
/// coordinates; a `vt` line without one, two or three; a `vn` line without
/// exactly three; a `vt` or `vn` line with a coordinate that is not the text
/// of a number, or a `v` line whose first three coordinates (and fourth, if
/// given) include one; an `f` line with a corner of fewer than three
/// `/`-separated pieces. A comment line can always be read.
pub proof fn law_line_faults(line: Seq<char>)
    ensures
        is_comment_line(line) ==> line_fault(line) is None,
        !is_comment_line(line) && words(line).len() == 0 ==> line_fault(line) == Some(
            LineFault::MissingKeyword,
        ),
        ({
            let w = words(line);
            let n = line_args(line).len();
            &&& !is_comment_line(line) && w.len() > 0 && w[0] == seq!['v'] && n < 3
                ==> line_fault(line) == Some(LineFault::VertexArity(n as usize))
            &&& !is_comment_line(line) && w.len() > 0 && w[0] == seq!['v'] && n >= 3 && (exists|
                i: int,
            | 0 <= i < 3 && !float_text(#[trigger] w[i + 1])) ==> line_fault(line) == Some(
                LineFault::BadNumber,
            )
            &&& !is_comment_line(line) && w.len() > 0 && w[0] == seq!['v'] && n >= 4 && !float_text(
                w[4],
            ) ==> line_fault(line) == Some(LineFault::BadNumber)
            &&& !is_comment_line(line) && w.len() > 0 && w[0] == seq!['v', 't'] && (n < 1 || n > 3)
                ==> line_fault(line) == Some(LineFault::TexCoordArity(n as usize))
            &&& !is_comment_line(line) && w.len() > 0 && w[0] == seq!['v', 't'] && 1 <= n <= 3 && (
            exists|i: int| 0 <= i < n && !float_text(#[trigger] w[i + 1])) ==> line_fault(line)
                == Some(LineFault::BadNumber)
            &&& !is_comment_line(line) && w.len() > 0 && w[0] == seq!['v', 'n'] && n != 3
                ==> line_fault(line) == Some(LineFault::NormalArity(n as usize))
            &&& !is_comment_line(line) && w.len() > 0 && w[0] == seq!['v', 'n'] && n == 3 && (exists|
                i: int,
            | 0 <= i < 3 && !float_text(#[trigger] w[i + 1])) ==> line_fault(line) == Some(
                LineFault::BadNumber,
            )
            &&& !is_comment_line(line) && w.len() > 0 && w[0] == seq!['f'] && (exists|i: int|
                0 <= i < n && #[trigger] split_on(w[i + 1], '/').len() < 3) ==> line_fault(line)
                == Some(LineFault::FaceCorner)
        }),
{
    let w = words(line);
    let a = line_args(line);
    assert(kw_v() =~= seq!['v']);
    assert(kw_vt() =~= seq!['v', 't']);
    assert(kw_vn() =~= seq!['v', 'n']);
    assert(kw_f() =~= seq!['f']);
    lemma_keywords_differ();
    if !is_comment_line(line) && w.len() > 0 {
        lemma_before_comment_is_prefix(w.drop_first());
        assert forall|i: int| 0 <= i < a.len() implies #[trigger] a[i] == w[i + 1] by {
            assert(a[i] == w.drop_first()[i]);
        }
        let n = a.len();
        if w[0] == seq!['v'] && n >= 3 {
            let vc = vertex_coords(a);
            if exists|i: int| 0 <= i < 3 && !float_text(#[trigger] w[i + 1]) {
                let i = choose|i: int| 0 <= i < 3 && !float_text(#[trigger] w[i + 1]);
                assert(vc[i] == w[i + 1]);
            }
            if n >= 4 && !float_text(w[4]) {
                assert(vc[3] == w[4]);
            }
        }
        if (w[0] == seq!['v', 't'] || w[0] == seq!['v', 'n']) && exists|i: int|
            0 <= i < n && !float_text(#[trigger] w[i + 1]) {
            let i = choose|i: int| 0 <= i < n && !float_text(#[trigger] w[i + 1]);
            assert(a[i] == w[i + 1]);
        }
        if w[0] == seq!['f'] && exists|i: int|
            0 <= i < n && #[trigger] split_on(w[i + 1], '/').len() < 3 {
            let i = choose|i: int| 0 <= i < n && #[trigger] split_on(w[i + 1], '/').len() < 3;
            assert(a[i] == w[i + 1]);
            assert(has_short_corner(a));
        }
    }
}

} // verus!
