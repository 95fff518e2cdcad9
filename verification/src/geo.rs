//! Geometry trees: solids and flat shapes, and how the children of a group become one of them.

use vstd::prelude::*;

use crate::chars::same;
use crate::geom::{Affine, Affine2, Rgba, Tri, Vec2, Vec3};
use crate::message::{lines, Error, Fault, Line, Message};

verus! {

/// A triangle mesh.
#[derive(Debug)]
pub struct Mesh {
    pub verts: Vec<Vec3>,
    pub tris: Vec<Tri>,
}

impl Mesh {
    /// The empty mesh.
    pub fn new() -> (r: Mesh)
        ensures
            r.verts@.len() == 0,
            r.tris@.len() == 0,
    {
        Mesh { verts: Vec::new(), tris: Vec::new() }
    }
}

/// A closed ring of points.
pub type Contour = Vec<Vec2>;

/// A solid.
#[derive(Debug)]
#[allow(inconsistent_fields)]
pub enum GeoNode {
    Empty,
    Leaf(Mesh),
    Transform { matrix: Affine, child: Box<GeoNode> },
    Color { color: Rgba, child: Box<GeoNode> },
    Union(Vec<GeoNode>),
    Difference(Vec<GeoNode>),
    Intersection(Vec<GeoNode>),
    /// The union of the top-level objects, each a part of its own.
    Parts(Vec<GeoNode>),
}

/// A flat shape.
#[derive(Debug)]
pub enum Shape2D {
    Empty,
    Polygon(Vec<Contour>),
    Transform { matrix: Affine2, child: Box<Shape2D> },
    Union(Vec<Shape2D>),
    Difference(Vec<Shape2D>),
    Intersection(Vec<Shape2D>),
}

/// A solid or a flat shape.
#[derive(Debug)]
pub enum Geo {
    D2(Shape2D),
    D3(GeoNode),
}

/// Whether a geometry is no object at all: it has no dimension.
pub open spec fn null(g: Geo) -> bool {
    g matches Geo::D3(GeoNode::Empty)
}

/// The dimension of a geometry.
pub open spec fn dim_of(g: Geo) -> int {
    match g {
        Geo::D2(_) => 2,
        Geo::D3(_) => 3,
    }
}

impl Geo {
    /// Whether this is no object at all.
    pub fn is_null(&self) -> (r: bool)
        ensures
            r == null(*self),
    {
        match self {
            Geo::D3(GeoNode::Empty) => true,
            _ => false,
        }
    }

    /// The dimension.
    pub fn dim(&self) -> (r: u8)
        ensures
            r == dim_of(*self),
    {
        match self {
            Geo::D2(_) => 2,
            Geo::D3(_) => 3,
        }
    }
}

/// The dimension of a group: that of the first object among the first `n` children.
pub open spec fn group_dim(cs: Seq<Geo>, n: nat) -> Option<int>
    decreases n,
{
    if n == 0 {
        None
    } else {
        match group_dim(cs, (n - 1) as nat) {
            Some(d) => Some(d),
            None => if null(cs[n - 1]) {
                None
            } else {
                Some(dim_of(cs[n - 1]))
            },
        }
    }
}

/// Whether a child among the first `n` has another dimension than its group.
pub open spec fn mixes(cs: Seq<Geo>, n: nat) -> bool
    decreases n,
{
    if n == 0 {
        false
    } else {
        mixes(cs, (n - 1) as nat) || (!null(cs[n - 1]) && (group_dim(
            cs,
            (n - 1) as nat,
        ) matches Some(d) && d != dim_of(cs[n - 1])))
    }
}

/// The line about a child of another dimension than its group.
pub open spec fn ignored_line(c: int, d: int) -> Line {
    if c == 2 {
        Line::Warning("Ignoring 2D child object for 3D operation"@)
    } else {
        Line::Warning("Ignoring 3D child object for 2D operation"@)
    }
}

/// What is said about the first `n` children of a group: once that dimensions are mixed, and of
/// each child with another dimension that it is ignored.
pub open spec fn group_lines(cs: Seq<Geo>, n: nat) -> Seq<Line>
    decreases n,
{
    if n == 0 {
        Seq::empty()
    } else {
        let before = group_lines(cs, (n - 1) as nat);
        match group_dim(cs, (n - 1) as nat) {
            Some(d) => if null(cs[n - 1]) || d == dim_of(cs[n - 1]) {
                before
            } else if mixes(cs, (n - 1) as nat) {
                before.push(ignored_line(dim_of(cs[n - 1]), d))
            } else {
                before.push(Line::Warning("Mixing 2D and 3D objects is not supported"@)).push(
                    ignored_line(dim_of(cs[n - 1]), d),
                )
            },
            None => before,
        }
    }
}

/// The solids among the first `n` children of a group of solids.
pub open spec fn solids(cs: Seq<Geo>, n: nat) -> Seq<GeoNode>
    decreases n,
{
    if n == 0 {
        Seq::empty()
    } else {
        match cs[n - 1] {
            Geo::D3(node) => if null(cs[n - 1]) {
                solids(cs, (n - 1) as nat)
            } else {
                solids(cs, (n - 1) as nat).push(node)
            },
            Geo::D2(_) => solids(cs, (n - 1) as nat),
        }
    }
}

/// The shapes among the first `n` children of a group of flat shapes.
pub open spec fn shapes(cs: Seq<Geo>, n: nat) -> Seq<Shape2D>
    decreases n,
{
    if n == 0 {
        Seq::empty()
    } else {
        match cs[n - 1] {
            Geo::D2(shape) => shapes(cs, (n - 1) as nat).push(shape),
            Geo::D3(_) => shapes(cs, (n - 1) as nat),
        }
    }
}

/// The children of a group, all of one dimension.
#[derive(Debug)]
pub enum Children {
    D3(Vec<GeoNode>),
    D2(Vec<Shape2D>),
}

/// Whether children are what is kept of a group: those of the dimension of its first object.
pub open spec fn kept(cs: Seq<Geo>, r: Children) -> bool {
    if group_dim(cs, cs.len()) == Some(2int) {
        r matches Children::D2(v) && v@ == shapes(cs, cs.len())
    } else {
        r matches Children::D3(v) && v@ == solids(cs, cs.len())
    }
}

fn warn(log: &mut Vec<Message>, text: &str)
    ensures
        lines(final(log)@) == lines(old(log)@).push(Line::Warning(text@)),
{
    let ghost before = lines(log@);
    let m = Message::Warning(text.to_owned());
    let ghost shown = m@;
    log.push(m);
    assert(lines(log@) =~= before.push(shown));
}

fn push_child(child: Geo, d2: &mut Vec<Shape2D>, d3: &mut Vec<GeoNode>)
    ensures
        match child {
            Geo::D2(s) => final(d2)@ == old(d2)@.push(s) && final(d3)@ == old(d3)@,
            Geo::D3(n) => final(d3)@ == old(d3)@.push(n) && final(d2)@ == old(d2)@,
        },
{
    match child {
        Geo::D2(s) => {
            d2.push(s);
        },
        Geo::D3(n) => {
            d3.push(n);
        },
    }
}

/// Whether only children of one dimension are among the first `n`.
proof fn lemma_dims(cs: Seq<Geo>, n: nat)
    requires
        n <= cs.len(),
    ensures
        group_dim(cs, n) is None ==> solids(cs, n).len() == 0 && shapes(cs, n).len() == 0 && !mixes(
            cs,
            n,
        ),
        group_dim(cs, n) matches Some(d) ==> d == 2 || d == 3,
        group_dim(cs, n) == Some(2int) ==> shapes(cs, n).len() > 0,
    decreases n,
{
    if n > 0 {
        lemma_dims(cs, (n - 1) as nat);
    }
}

/// Keeps the children of a group that have the dimension of its first object, with a warning about
/// each other one.
pub fn partition_children(children: Vec<Geo>, log: &mut Vec<Message>) -> (r: Children)
    ensures
        kept(children@, r),
        lines(final(log)@) == lines(old(log)@) + group_lines(children@, children@.len()),
{
    let ghost cs = children@;
    let ghost start = lines(log@);
    let mut rest: Vec<Geo> = children;
    let mut d3: Vec<GeoNode> = Vec::new();
    let mut d2: Vec<Shape2D> = Vec::new();
    let mut dim: Option<u8> = None;
    let mut warned: bool = false;
    let mut i: usize = 0;
    assert(start + group_lines(cs, 0) =~= start);
    while i < rest.len()
        invariant
            i <= rest@.len(),
            rest@.len() == cs.len(),
            forall|k: int| i <= k < cs.len() ==> #[trigger] rest@[k] == cs[k],
            match dim {
                Some(d) => group_dim(cs, i as nat) == Some(d as int),
                None => group_dim(cs, i as nat) is None,
            },
            warned == mixes(cs, i as nat),
            group_dim(cs, i as nat) == Some(2int) ==> d2@ == shapes(cs, i as nat),
            group_dim(cs, i as nat) != Some(2int) ==> d3@ == solids(cs, i as nat),
            group_dim(cs, i as nat) is None ==> d2@.len() == 0 && d3@.len() == 0,
            group_dim(cs, i as nat) == Some(3int) ==> d2@.len() == 0,
            lines(log@) == start + group_lines(cs, i as nat),
        decreases rest@.len() - i,
    {
        proof {
            lemma_dims(cs, i as nat);
            lemma_dims(cs, (i + 1) as nat);
        }
        let mut child: Geo = Geo::D3(GeoNode::Empty);
        rest.set_and_swap(i, &mut child);
        assert(child == cs[i as int]);
        if !child.is_null() {
            let cdim: u8 = child.dim();
            match dim {
                None => {
                    assert(d2@ =~= Seq::<Shape2D>::empty());
                    assert(shapes(cs, i as nat) =~= Seq::<Shape2D>::empty());
                    dim = Some(cdim);
                    push_child(child, &mut d2, &mut d3);
                },
                Some(d) => {
                    if d == cdim {
                        push_child(child, &mut d2, &mut d3);
                    } else {
                        let ghost before = lines(log@);
                        if !warned {
                            warn(log, "Mixing 2D and 3D objects is not supported");
                            warned = true;
                        }
                        if cdim == 2 {
                            warn(log, "Ignoring 2D child object for 3D operation");
                        } else {
                            warn(log, "Ignoring 3D child object for 2D operation");
                        }
                        assert(lines(log@) =~= start + group_lines(cs, (i + 1) as nat));
                    }
                },
            }
        }
        i += 1;
    }
    proof {
        lemma_dims(cs, cs.len());
    }
    match dim {
        Some(2) => Children::D2(d2),
        _ => Children::D3(d3),
    }
}

/// How several objects of a group become one.
#[derive(Debug, Clone, Copy, PartialEq, Eq, Structural)]
pub enum Combine {
    Union,
    Difference,
    Intersection,
}

/// Whether a solid is a node of its own over given children.
pub open spec fn solid_node(how: Combine, kids: Seq<GeoNode>, r: GeoNode) -> bool {
    match how {
        Combine::Union => r matches GeoNode::Union(v) && v@ == kids,
        Combine::Difference => r matches GeoNode::Difference(v) && v@ == kids,
        Combine::Intersection => r matches GeoNode::Intersection(v) && v@ == kids,
    }
}

/// Whether a shape is a node of its own over given children.
pub open spec fn shape_node(how: Combine, kids: Seq<Shape2D>, r: Shape2D) -> bool {
    match how {
        Combine::Union => r matches Shape2D::Union(v) && v@ == kids,
        Combine::Difference => r matches Shape2D::Difference(v) && v@ == kids,
        Combine::Intersection => r matches Shape2D::Intersection(v) && v@ == kids,
    }
}

/// Whether a geometry is what the children of a group collapse to: nothing where there is none, the
/// child itself where there is one, else a node over them.
pub open spec fn collapsed(how: Combine, cs: Seq<Geo>, r: Geo) -> bool {
    if group_dim(cs, cs.len()) == Some(2int) {
        let kids = shapes(cs, cs.len());
        r matches Geo::D2(s) && if kids.len() == 1 {
            s == kids[0]
        } else {
            shape_node(how, kids, s)
        }
    } else {
        let kids = solids(cs, cs.len());
        r matches Geo::D3(n) && if kids.len() == 0 {
            n == GeoNode::Empty
        } else if kids.len() == 1 {
            n == kids[0]
        } else {
            solid_node(how, kids, n)
        }
    }
}

fn make3(how: Combine, kids: Vec<GeoNode>) -> (r: GeoNode)
    ensures
        solid_node(how, kids@, r),
{
    match how {
        Combine::Union => GeoNode::Union(kids),
        Combine::Difference => GeoNode::Difference(kids),
        Combine::Intersection => GeoNode::Intersection(kids),
    }
}

fn make2(how: Combine, kids: Vec<Shape2D>) -> (r: Shape2D)
    ensures
        shape_node(how, kids@, r),
{
    match how {
        Combine::Union => Shape2D::Union(kids),
        Combine::Difference => Shape2D::Difference(kids),
        Combine::Intersection => Shape2D::Intersection(kids),
    }
}

fn collapse(children: Children, how: Combine, Ghost(cs): Ghost<Seq<Geo>>) -> (r: Geo)
    requires
        kept(cs, children),
    ensures
        collapsed(how, cs, r),
{
    proof {
        lemma_dims(cs, cs.len());
    }
    match children {
        Children::D3(nodes) => {
            let mut nodes: Vec<GeoNode> = nodes;
            if nodes.len() == 0 {
                return Geo::D3(GeoNode::Empty);
            }
            if nodes.len() == 1 {
                return match nodes.pop() {
                    Some(n) => Geo::D3(n),
                    None => Geo::D3(GeoNode::Empty),
                };
            }
            Geo::D3(make3(how, nodes))
        },
        Children::D2(shapes) => {
            let mut shapes: Vec<Shape2D> = shapes;
            if shapes.len() == 1 {
                return match shapes.pop() {
                    Some(s) => Geo::D2(s),
                    None => Geo::D2(Shape2D::Empty),
                };
            }
            Geo::D2(make2(how, shapes))
        },
    }
}

/// The union of the children of a group.
pub fn union_of(children: Vec<Geo>, log: &mut Vec<Message>) -> (r: Geo)
    ensures
        collapsed(Combine::Union, children@, r),
        lines(final(log)@) == lines(old(log)@) + group_lines(children@, children@.len()),
{
    let ghost cs = children@;
    let kids: Children = partition_children(children, log);
    collapse(kids, Combine::Union, Ghost(cs))
}

/// The intersection of the children of a group.
pub fn intersection_of(children: Vec<Geo>, log: &mut Vec<Message>) -> (r: Geo)
    ensures
        collapsed(Combine::Intersection, children@, r),
        lines(final(log)@) == lines(old(log)@) + group_lines(children@, children@.len()),
{
    let ghost cs = children@;
    let kids: Children = partition_children(children, log);
    collapse(kids, Combine::Intersection, Ghost(cs))
}

/// What the module of a name does with its children.
pub open spec fn combine_of(name: Seq<char>) -> Combine {
    if name == "difference"@ {
        Combine::Difference
    } else if name == "intersection"@ {
        Combine::Intersection
    } else {
        Combine::Union
    }
}

/// The node of an explicit `union`, `difference` or `intersection`, even over a single child.
pub fn boolean_of(name: &str, children: Vec<Geo>, log: &mut Vec<Message>) -> (r: Geo)
    ensures
        if group_dim(children@, children@.len()) == Some(2int) {
            r matches Geo::D2(s) && shape_node(
                combine_of(name@),
                shapes(children@, children@.len()),
                s,
            )
        } else {
            r matches Geo::D3(n) && solid_node(
                combine_of(name@),
                solids(children@, children@.len()),
                n,
            )
        },
        ({
            let solid = group_dim(children@, children@.len()) != Some(2int);
            let nodes = solids(children@, children@.len());
            let flat = shapes(children@, children@.len());
            &&& name@ == "union"@ && solid ==> (r matches Geo::D3(GeoNode::Union(v)) && v@ == nodes)
            &&& name@ == "difference"@ && solid ==> (r matches Geo::D3(GeoNode::Difference(v)) && v@
                == nodes)
            &&& name@ == "intersection"@ && solid ==> (r matches Geo::D3(GeoNode::Intersection(v)) && v@
                == nodes)
            &&& name@ == "union"@ && !solid ==> (r matches Geo::D2(Shape2D::Union(v)) && v@ == flat)
            &&& name@ == "difference"@ && !solid ==> (r matches Geo::D2(Shape2D::Difference(v)) && v@
                == flat)
            &&& name@ == "intersection"@ && !solid ==> (r matches Geo::D2(Shape2D::Intersection(v)) && v@
                == flat)
        }),
        lines(final(log)@) == lines(old(log)@) + group_lines(children@, children@.len()),
{
    proof {
        lemma_boolean_names();
    }
    let how: Combine = if same(name, "difference") {
        Combine::Difference
    } else if same(name, "intersection") {
        Combine::Intersection
    } else {
        Combine::Union
    };
    match partition_children(children, log) {
        Children::D3(kids) => Geo::D3(make3(how, kids)),
        Children::D2(kids) => Geo::D2(make2(how, kids)),
    }
}

/// A child under a transform; a flat one under what the transform does in its plane.
pub fn transform_of(matrix: Affine, child: Geo) -> (r: Geo)
    ensures
        match child {
            Geo::D3(node) => r == Geo::D3(
                GeoNode::Transform { matrix, child: Box::new(node) },
            ),
            Geo::D2(shape) => r matches Geo::D2(Shape2D::Transform { matrix: m, child: c }) && *c
                == shape && m.0@ == seq![
                matrix.0@[0],
                matrix.0@[1],
                matrix.0@[3],
                matrix.0@[4],
                matrix.0@[5],
                matrix.0@[7],
            ],
        },
{
    match child {
        Geo::D3(node) => Geo::D3(GeoNode::Transform { matrix, child: Box::new(node) }),
        Geo::D2(shape) => Geo::D2(
            Shape2D::Transform {
                matrix: Affine2::from_affine3(&matrix),
                child: Box::new(shape),
            },
        ),
    }
}

/// A child of an operation on flat shapes; a solid is ignored with a warning.
pub fn force_2d(child: Geo, log: &mut Vec<Message>) -> (r: Shape2D)
    ensures
        match child {
            Geo::D2(shape) => r == shape && lines(final(log)@) == lines(old(log)@),
            Geo::D3(_) => r == Shape2D::Empty && lines(final(log)@) == if null(child) {
                lines(old(log)@)
            } else {
                lines(old(log)@).push(ignored_line(3, 2))
            },
        },
{
    match child {
        Geo::D2(shape) => shape,
        Geo::D3(GeoNode::Empty) => Shape2D::Empty,
        Geo::D3(_) => {
            warn(log, "Ignoring 3D child object for 2D operation");
            Shape2D::Empty
        },
    }
}

/// A child of an operation on solids; a flat shape is ignored with a warning.
pub fn force_3d(child: Geo, log: &mut Vec<Message>) -> (r: GeoNode)
    ensures
        match child {
            Geo::D3(node) => r == node && lines(final(log)@) == lines(old(log)@),
            Geo::D2(_) => r == GeoNode::Empty && lines(final(log)@) == lines(old(log)@).push(
                ignored_line(2, 3),
            ),
        },
{
    match child {
        Geo::D3(node) => node,
        Geo::D2(_) => {
            warn(log, "Ignoring 2D child object for 3D operation");
            GeoNode::Empty
        },
    }
}

/// A solid without the colours around it.
pub open spec fn uncoloured(n: GeoNode) -> GeoNode
    decreases n,
{
    match n {
        GeoNode::Color { child, .. } => uncoloured(*child),
        _ => n,
    }
}

/// Why a geometry in the plane has no mesh.
pub open spec fn needs_solid() -> Seq<char> {
    "2D geometry (square/circle/polygon/\u{2026}) has no 3D mesh \u{2014} use evaluate_geometry + a backend, or extrude it into 3D (J.3)"@
}

/// Why a geometry that needs a kernel has no mesh.
pub open spec fn needs_kernel() -> Seq<char> {
    "geometry with transforms or booleans needs a backend \u{2014} use evaluate_geometry (J.2)"@
}

/// The mesh of a geometry that needs no kernel: nothing, or a single mesh in any colours.
pub fn mesh_of(tree: Geo) -> (r: Result<Mesh, Error>)
    ensures
        match tree {
            Geo::D2(_) => r matches Err(e) && e@ == Fault::Unimplemented(needs_solid()),
            Geo::D3(node) => match uncoloured(node) {
                GeoNode::Empty => r matches Ok(m) && m.verts@.len() == 0 && m.tris@.len() == 0,
                GeoNode::Leaf(mesh) => r == Ok::<Mesh, Error>(mesh),
                _ => r matches Err(e) && e@ == Fault::Unimplemented(needs_kernel()),
            },
        },
{
    match tree {
        Geo::D2(_) => Err(
            Error::Unimplemented(
                "2D geometry (square/circle/polygon/\u{2026}) has no 3D mesh \u{2014} use evaluate_geometry + a backend, or extrude it into 3D (J.3)".to_owned(),
            ),
        ),
        Geo::D3(node) => mesh_of_solid(node),
    }
}

fn mesh_of_solid(node: GeoNode) -> (r: Result<Mesh, Error>)
    ensures
        match uncoloured(node) {
            GeoNode::Empty => r matches Ok(m) && m.verts@.len() == 0 && m.tris@.len() == 0,
            GeoNode::Leaf(mesh) => r == Ok::<Mesh, Error>(mesh),
            _ => r matches Err(e) && e@ == Fault::Unimplemented(needs_kernel()),
        },
    decreases node,
{
    match node {
        GeoNode::Empty => Ok(Mesh::new()),
        GeoNode::Leaf(mesh) => Ok(mesh),
        GeoNode::Color { child, .. } => mesh_of_solid(*child),
        _ => Err(
            Error::Unimplemented(
                "geometry with transforms or booleans needs a backend \u{2014} use evaluate_geometry (J.2)".to_owned(),
            ),
        ),
    }
}

/// The objects that a program renders: those under a root modifier where there are any, else all.
pub open spec fn rendered_items(nodes: Seq<Geo>, root: Seq<Geo>) -> Seq<Geo> {
    if root.len() == 0 {
        nodes
    } else {
        root
    }
}

/// Whether a geometry is what some top-level objects come to: their union, whose children are
/// parts where there were several.
pub open spec fn top_of(items: Seq<Geo>, r: Geo) -> bool {
    exists|g: Geo| #[trigger]
        collapsed(Combine::Union, items, g) && match g {
            Geo::D3(GeoNode::Union(kids)) => if items.len() > 1 {
                r == Geo::D3(GeoNode::Parts(kids))
            } else {
                r == g
            },
            _ => r == g,
        }
}

/// The geometry of a program from its top-level objects, and those under a root modifier.
pub fn eval_top(nodes: Vec<Geo>, root: Vec<Geo>, log: &mut Vec<Message>) -> (r: Geo)
    ensures
        top_of(rendered_items(nodes@, root@), r),
        lines(final(log)@) == lines(old(log)@) + group_lines(
            rendered_items(nodes@, root@),
            rendered_items(nodes@, root@).len(),
        ),
{
    let items: Vec<Geo> = if root.len() == 0 {
        nodes
    } else {
        root
    };
    let multi: bool = items.len() > 1;
    let ghost all = items@;
    let merged: Geo = union_of(items, log);
    assert(collapsed(Combine::Union, all, merged));
    match merged {
        Geo::D3(GeoNode::Union(kids)) => {
            if multi {
                Geo::D3(GeoNode::Parts(kids))
            } else {
                Geo::D3(GeoNode::Union(kids))
            }
        },
        other => other,
    }
}

/// A group whose objects agree in their dimension says nothing, and has the dimension of one of
/// them.
pub proof fn law_agreeing_groups_are_silent(cs: Seq<Geo>, n: nat)
    requires
        n <= cs.len(),
        forall|i: int, j: int|
            0 <= i < n && 0 <= j < n && !null(#[trigger] cs[i]) && !null(#[trigger] cs[j])
                ==> dim_of(cs[i]) == dim_of(cs[j]),
    ensures
        group_lines(cs, n).len() == 0,
        !mixes(cs, n),
        group_dim(cs, n) matches Some(d) ==> exists|k: int|
            0 <= k < n && !null(#[trigger] cs[k]) && dim_of(cs[k]) == d,
    decreases n,
{
    if n > 0 {
        law_agreeing_groups_are_silent(cs, (n - 1) as nat);
        match group_dim(cs, (n - 1) as nat) {
            Some(d) => {
                let k = choose|k: int|
                    0 <= k < n - 1 && !null(#[trigger] cs[k]) && dim_of(cs[k]) == d;
                assert(!null(cs[k]));
                if !null(cs[n - 1]) {
                    assert(dim_of(cs[k]) == dim_of(cs[n - 1]));
                }
            },
            None => {
                if !null(cs[n - 1]) {
                    assert(!null(cs[n - 1]) && dim_of(cs[n - 1]) == group_dim(cs, n)->Some_0);
                }
            },
        }
    }
}

proof fn lemma_boolean_names()
    ensures
        "union"@ != "difference"@,
        "union"@ != "intersection"@,
        "intersection"@ != "difference"@,
{
    reveal_strlit("union");
    reveal_strlit("difference");
    reveal_strlit("intersection");
    assert("union"@.len() == 5 && "difference"@.len() == 10 && "intersection"@.len() == 12);
}

/// Whether a solid covers a place that some of its parts cover: a union where one of its children does, an
/// intersection where all of them do, a difference where the first one does and none after it.
pub open spec fn covers(n: GeoNode, at: spec_fn(GeoNode) -> bool) -> bool {
    match n {
        GeoNode::Empty => false,
        GeoNode::Union(v) => exists|i: int| 0 <= i < v@.len() && at(#[trigger] v@[i]),
        GeoNode::Parts(v) => exists|i: int| 0 <= i < v@.len() && at(#[trigger] v@[i]),
        GeoNode::Intersection(v) => forall|i: int| 0 <= i < v@.len() ==> at(#[trigger] v@[i]),
        GeoNode::Difference(v) => v@.len() > 0 && at(v@[0]) && forall|i: int|
            0 < i < v@.len() ==> !at(#[trigger] v@[i]),
        _ => at(n),
    }
}

/// Whether a flat shape covers a place that some of its parts cover.
pub open spec fn covers_flat(n: Shape2D, at: spec_fn(Shape2D) -> bool) -> bool {
    match n {
        Shape2D::Empty => false,
        Shape2D::Union(v) => exists|i: int| 0 <= i < v@.len() && at(#[trigger] v@[i]),
        Shape2D::Intersection(v) => forall|i: int| 0 <= i < v@.len() ==> at(#[trigger] v@[i]),
        Shape2D::Difference(v) => v@.len() > 0 && at(v@[0]) && forall|i: int|
            0 < i < v@.len() ==> !at(#[trigger] v@[i]),
        _ => at(n),
    }
}

/// What `union`, `difference` and `intersection` make of their children covers a place as their names say:
/// where a child covers it, where only the first one does, where all of them do.
pub proof fn law_booleans(name: Seq<char>, kids: Seq<GeoNode>, r: GeoNode, at: spec_fn(GeoNode) -> bool)
    requires
        solid_node(combine_of(name), kids, r),
    ensures
        name == "union"@ ==> (covers(r, at) <==> exists|i: int| 0 <= i < kids.len() && at(#[trigger] kids[i])),
        name == "difference"@ ==> (covers(r, at) <==> kids.len() > 0 && at(kids[0]) && forall|i: int|
            0 < i < kids.len() ==> !at(#[trigger] kids[i])),
        name == "intersection"@ ==> (covers(r, at) <==> forall|i: int|
            0 <= i < kids.len() ==> at(#[trigger] kids[i])),
{
    lemma_boolean_names();
}

/// What `union`, `difference` and `intersection` make of flat children covers a place as their names say.
pub proof fn law_flat_booleans(name: Seq<char>, kids: Seq<Shape2D>, r: Shape2D, at: spec_fn(Shape2D) -> bool)
    requires
        shape_node(combine_of(name), kids, r),
    ensures
        name == "union"@ ==> (covers_flat(r, at) <==> exists|i: int|
            0 <= i < kids.len() && at(#[trigger] kids[i])),
        name == "difference"@ ==> (covers_flat(r, at) <==> kids.len() > 0 && at(kids[0]) && forall|i: int|
            0 < i < kids.len() ==> !at(#[trigger] kids[i])),
        name == "intersection"@ ==> (covers_flat(r, at) <==> forall|i: int|
            0 <= i < kids.len() ==> at(#[trigger] kids[i])),
{
    lemma_boolean_names();
}

/// A group of solids becomes one that covers what the way of combining them says, also where there is
/// none or only one of them.
pub proof fn law_groups_cover(cs: Seq<Geo>, r: Geo, at: spec_fn(GeoNode) -> bool)
    requires
        group_dim(cs, cs.len()) != Some(2int),
        forall|n: GeoNode| #[trigger] at(n) == covers(n, at),
    ensures
        collapsed(Combine::Union, cs, r) ==> (r matches Geo::D3(n) && (at(n) <==> exists|i: int|
            0 <= i < solids(cs, cs.len()).len() && at(#[trigger] solids(cs, cs.len())[i]))),
        collapsed(Combine::Intersection, cs, r) && solids(cs, cs.len()).len() > 0 ==> (r matches Geo::D3(n) && (at(
            n,
        ) <==> forall|i: int|
            0 <= i < solids(cs, cs.len()).len() ==> at(#[trigger] solids(cs, cs.len())[i]))),
{
    let kids = solids(cs, cs.len());
    if kids.len() == 1 {
        assert(at(kids[0]) ==> (0 <= 0 < kids.len() && at(kids[0])));
    }
    match r {
        Geo::D3(n) => {
            assert(at(n) == covers(n, at));
        },
        _ => {},
    }
}

/// The first object of a group decides its dimension.
pub proof fn law_first_object_decides(cs: Seq<Geo>, n: nat, k: int)
    requires
        0 <= k < n <= cs.len(),
        !null(cs[k]),
        forall|i: int| 0 <= i < k ==> null(#[trigger] cs[i]),
    ensures
        cs[k] is D2 ==> group_dim(cs, n) == Some(2int),
        cs[k] is D3 ==> group_dim(cs, n) == Some(3int),
    decreases n,
{
    if n == k + 1 {
        lemma_no_object(cs, k as nat);
    } else {
        law_first_object_decides(cs, (n - 1) as nat, k);
    }
}

proof fn lemma_no_object(cs: Seq<Geo>, n: nat)
    requires
        n <= cs.len(),
        forall|i: int| 0 <= i < n ==> null(#[trigger] cs[i]),
    ensures
        group_dim(cs, n) is None,
    decreases n,
{
    if n > 0 {
        lemma_no_object(cs, (n - 1) as nat);
    }
}

/// The children of a group are kept in their order: where all of them are solids, each one is kept at its
/// place, and where all are flat shapes likewise.
pub proof fn law_children_keep_their_order(cs: Seq<Geo>, n: nat)
    requires
        n <= cs.len(),
    ensures
        (forall|i: int| 0 <= i < n ==> (#[trigger] cs[i]) is D3 && !null(cs[i])) ==> solids(cs, n).len() == n
            && forall|i: int| 0 <= i < n ==> Geo::D3(#[trigger] solids(cs, n)[i]) == cs[i],
        (forall|i: int| 0 <= i < n ==> (#[trigger] cs[i]) is D2) ==> shapes(cs, n).len() == n && forall|i: int|
            0 <= i < n ==> Geo::D2(#[trigger] shapes(cs, n)[i]) == cs[i],
    decreases n,
{
    if n > 0 {
        law_children_keep_their_order(cs, (n - 1) as nat);
    }
}

/// What is kept of a group is of its children only, no object is left out, and what is no object adds
/// nothing.
pub proof fn law_children_are_kept(cs: Seq<Geo>, n: nat)
    requires
        0 < n <= cs.len(),
    ensures
        null(cs[n - 1]) ==> solids(cs, n) == solids(cs, (n - 1) as nat) && shapes(cs, n) == shapes(
            cs,
            (n - 1) as nat,
        ),
        !null(cs[n - 1]) ==> (cs[n - 1] matches Geo::D3(x) ==> solids(cs, n) == solids(
            cs,
            (n - 1) as nat,
        ).push(x) && shapes(cs, n) == shapes(cs, (n - 1) as nat)),
        cs[n - 1] matches Geo::D2(x) ==> shapes(cs, n) == shapes(cs, (n - 1) as nat).push(x) && solids(cs, n)
            == solids(cs, (n - 1) as nat),
{
}

/// A child of the other dimension is warned about: that it is ignored, and before the first such one that
/// dimensions are mixed.
pub proof fn law_mixed_groups_are_told(cs: Seq<Geo>, n: nat)
    requires
        0 < n <= cs.len(),
        group_dim(cs, (n - 1) as nat) == Some(3int) && cs[n - 1] is D2 || group_dim(cs, (n - 1) as nat) == Some(
            2int,
        ) && cs[n - 1] is D3 && !null(cs[n - 1]),
    ensures
        ({
            let before = group_lines(cs, (n - 1) as nat);
            let told = Line::Warning(
                if cs[n - 1] is D2 {
                    "Ignoring 2D child object for 3D operation"@
                } else {
                    "Ignoring 3D child object for 2D operation"@
                },
            );
            group_lines(cs, n) == if before.len() == 0 {
                seq![Line::Warning("Mixing 2D and 3D objects is not supported"@), told]
            } else {
                before.push(told)
            }
        }),
{
    lemma_mixes(cs, (n - 1) as nat);
    let told = ignored_line(dim_of(cs[n - 1]), group_dim(cs, (n - 1) as nat)->Some_0);
    if group_lines(cs, (n - 1) as nat).len() == 0 {
        assert(group_lines(cs, n) =~= seq![
            Line::Warning("Mixing 2D and 3D objects is not supported"@),
            told,
        ]);
    }
}

proof fn lemma_mixes(cs: Seq<Geo>, n: nat)
    requires
        n <= cs.len(),
    ensures
        mixes(cs, n) <==> group_lines(cs, n).len() > 0,
    decreases n,
{
    if n > 0 {
        lemma_mixes(cs, (n - 1) as nat);
    }
}

/// What a program renders are the objects under a root modifier, where there is one, and nothing else.
pub proof fn law_root_objects_stand_alone(nodes: Seq<Geo>, root: Seq<Geo>)
    ensures
        root.len() > 0 ==> rendered_items(nodes, root) == root,
        root.len() == 0 ==> rendered_items(nodes, root) == nodes,
{
}

/// Several solids on the top level are the parts of what a program renders, each at its place; one alone is
/// that itself, and none is nothing.
pub proof fn law_top_objects_are_parts(items: Seq<Geo>, r: Geo)
    requires
        top_of(items, r),
        forall|i: int| 0 <= i < items.len() ==> (#[trigger] items[i]) is D3 && !null(items[i]),
    ensures
        items.len() == 0 ==> r == Geo::D3(GeoNode::Empty),
        items.len() == 1 ==> r == items[0],
        items.len() > 1 ==> (r matches Geo::D3(GeoNode::Parts(v)) && v@.len() == items.len() && forall|i: int|
            0 <= i < items.len() ==> Geo::D3(#[trigger] v@[i]) == items[i]),
{
    law_children_keep_their_order(items, items.len());
    if items.len() > 0 {
        law_first_object_decides(items, items.len(), 0);
    }
    let g = choose|g: Geo| #[trigger]
        collapsed(Combine::Union, items, g) && match g {
            Geo::D3(GeoNode::Union(kids)) => if items.len() > 1 {
                r == Geo::D3(GeoNode::Parts(kids))
            } else {
                r == g
            },
            _ => r == g,
        };
    assert(collapsed(Combine::Union, items, g));
}

/// The colours around a solid do not change which mesh it has.
pub proof fn law_colours_do_not_shape(n: GeoNode)
    ensures
        !(uncoloured(n) is Color),
        n matches GeoNode::Color { child, .. } ==> uncoloured(n) == uncoloured(*child),
        !(n is Color) ==> uncoloured(n) == n,
    decreases n,
{
    match n {
        GeoNode::Color { child, .. } => {
            law_colours_do_not_shape(*child);
        },
        _ => {},
    }
}

/// A group of flat shapes alone stays flat and keeps them all; a group of solids alone, none of
/// them empty, is solid and keeps them all; a group of nothing is solid.
pub proof fn law_groups_keep_their_kind(cs: Seq<Geo>, r: Children)
    requires
        kept(cs, r),
    ensures
        cs.len() == 0 ==> r is D3,
        cs.len() > 0 && (forall|i: int| 0 <= i < cs.len() ==> #[trigger] cs[i] is D2) ==> (r matches Children::D2(v)
            && v@.len() == cs.len() && forall|i: int|
            0 <= i < cs.len() ==> cs[i] == Geo::D2(#[trigger] v@[i])),
        cs.len() > 0 && (forall|i: int| 0 <= i < cs.len() ==> (#[trigger] cs[i]) is D3 && cs[i] != Geo::D3(GeoNode::Empty)) ==> (r matches Children::D3(v)
            && v@.len() == cs.len() && forall|i: int|
            0 <= i < cs.len() ==> cs[i] == Geo::D3(#[trigger] v@[i])),
{
    lemma_one_kind(cs, cs.len());
}

proof fn lemma_one_kind(cs: Seq<Geo>, n: nat)
    requires
        n <= cs.len(),
    ensures
        n == 0 ==> group_dim(cs, n) is None,
        n > 0 && (forall|i: int| 0 <= i < cs.len() ==> #[trigger] cs[i] is D2) ==> group_dim(cs, n) == Some(2int),
        n > 0 && (forall|i: int| 0 <= i < cs.len() ==> (#[trigger] cs[i]) is D3 && cs[i] != Geo::D3(GeoNode::Empty)) ==> group_dim(cs, n) == Some(3int),
        (forall|i: int| 0 <= i < cs.len() ==> #[trigger] cs[i] is D2) ==> shapes(cs, n).len() == n && forall|i: int|
            0 <= i < n ==> cs[i] == Geo::D2(#[trigger] shapes(cs, n)[i]),
        (forall|i: int| 0 <= i < cs.len() ==> (#[trigger] cs[i]) is D3 && cs[i] != Geo::D3(GeoNode::Empty)) ==> solids(cs, n).len() == n && forall|i: int|
            0 <= i < n ==> cs[i] == Geo::D3(#[trigger] solids(cs, n)[i]),
    decreases n,
{
    if n > 0 {
        lemma_one_kind(cs, (n - 1) as nat);
        assert(cs[n - 1] is D2 || cs[n - 1] is D3);
    }
}

}
