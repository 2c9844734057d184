//! The tree of the paths of a package, with the names at each level in the
//! order of strings.

use vstd::prelude::*;
use crate::text;

verus! {

/// A node of a tree of paths: a name, whether a path ends here, and what
/// lies below.
pub struct Node {
    pub name: String,
    pub is_file: bool,
    pub children: Vec<Node>,
}

/// What a node is to the contracts.
pub struct Shape {
    pub name: Seq<char>,
    pub is_file: bool,
    pub children: Seq<Shape>,
}

/// The shape of a node.
pub open spec fn shape_of(node: Node) -> Shape
    decreases node,
{
    Shape {
        name: node.name@,
        is_file: node.is_file,
        children: Seq::new(
            node.children.len() as nat,
            |i: int|
                if 0 <= i < node.children.len() {
                    shape_of(node.children[i])
                } else {
                    arbitrary()
                },
        ),
    }
}

impl View for Node {
    type V = Shape;

    open spec fn view(&self) -> Shape {
        shape_of(*self)
    }
}

/// What the nodes of one level are to the contracts.
pub open spec fn level_view(level: Seq<Node>) -> Seq<Shape> {
    level.map_values(|n: Node| n@)
}

/// The children of a node, seen level by level.
pub proof fn lemma_children(node: Node)
    ensures
        node@.children == level_view(node.children@),
{
    assert(node@.children.len() == node.children@.len());
    assert forall|i: int| 0 <= i < node.children@.len() implies node@.children[i] == level_view(
        node.children@,
    )[i] by {
        assert(node@.children[i] == node.children[i]@);
        assert(node.children[i] == node.children@[i]);
    }
    assert(node@.children =~= level_view(node.children@));
}

/// The place of `name` in a level from place `i` on: the first place whose
/// name does not come before it.
pub open spec fn slot(level: Seq<Shape>, name: Seq<char>, i: int) -> int
    decreases level.len() - i,
{
    if 0 <= i < level.len() && text::text_lt(level[i].name, name) {
        slot(level, name, i + 1)
    } else {
        i
    }
}

/// A node with nothing below it at which no path ends.
pub open spec fn leaf(name: Seq<char>) -> Shape {
    Shape { name, is_file: false, children: seq![] }
}

/// A level after the path `parts` has been put into it. The first part
/// names a node of the level, which is made at its place in the order of
/// names if the level has none of that name; the path ends at that node if
/// it has no more parts, and else the rest of it is put into the level below
/// the node. A path without parts changes nothing.
pub open spec fn inserted(level: Seq<Shape>, parts: Seq<Seq<char>>) -> Seq<Shape>
    decreases parts.len(),
{
    if parts.len() == 0 {
        level
    } else {
        let p = slot(level, parts[0], 0);
        let found = 0 <= p < level.len() && level[p].name == parts[0];
        let node = if found {
            level[p]
        } else {
            leaf(parts[0])
        };
        let grown = if parts.len() == 1 {
            Shape { name: node.name, is_file: true, children: node.children }
        } else {
            Shape {
                name: node.name,
                is_file: node.is_file,
                children: inserted(node.children, parts.drop_first()),
            }
        };
        if found {
            level.update(p, grown)
        } else {
            level.insert(p, grown)
        }
    }
}

/// Puts the path `parts[from..]` into a level of a tree whose levels, from
/// this one down, are sorted; they are sorted afterwards too, so that no
/// level ever holds a name twice.
pub fn insert_path(level: &mut Vec<Node>, parts: &Vec<String>, from: usize)
    requires
        from <= parts.len(),
        ordered(level_view(old(level)@)),
    ensures
        level_view(final(level)@) == inserted(
            level_view(old(level)@),
            text::texts_of(parts@).skip(from as int),
        ),
        ordered(level_view(final(level)@)),
    decreases parts.len() - from,
{
    proof {
        lemma_inserted_ordered(level_view(level@), text::texts_of(parts@).skip(from as int));
    }
    if from >= parts.len() {
        return ;
    }
    let ghost before = level_view(level@);
    let ghost rest = text::texts_of(parts@).skip(from as int);
    assert(rest[0] == parts@[from as int]@);
    assert(rest.drop_first() == text::texts_of(parts@).skip(from + 1));
    let first = text::chars_of(parts[from].as_str());
    let mut p: usize = 0;
    while p < level.len() && text::text_less(&text::chars_of(level[p].name.as_str()), &first)
        invariant
            p <= level.len(),
            before == level_view(level@),
            first@ == rest[0],
            slot(before, rest[0], 0) == slot(before, rest[0], p as int),
        decreases level.len() - p,
    {
        assert(before[p as int].name == level@[p as int].name@);
        p = p + 1;
    }
    proof {
        if p < level.len() {
            assert(before[p as int].name == level@[p as int].name@);
        }
    }
    let found = p < level.len() && text::same_chars(
        &text::chars_of(level[p].name.as_str()),
        &first,
    );
    let mut node = if found {
        level.remove(p)
    } else {
        Node { name: parts[from].clone(), is_file: false, children: Vec::new() }
    };
    let ghost picked = node@;
    proof {
        lemma_children(node);
        if found {
            assert(picked == before[p as int]);
            assert(ordered(before[p as int].children));
        } else {
            assert(picked.children =~= Seq::<Shape>::empty());
            assert(picked == leaf(rest[0]));
        }
        assert(ordered(level_view(node.children@)));
    }
    if from + 1 == parts.len() {
        node.is_file = true;
        proof {
            lemma_children(node);
            assert(rest.len() == 1);
        }
    } else {
        insert_path(&mut node.children, parts, from + 1);
        proof {
            lemma_children(node);
        }
    }
    let ghost grown = node@;
    let ghost held = level_view(level@);
    level.insert(p, node);
    proof {
        assert(level_view(level@) =~= held.insert(p as int, grown));
        if found {
            assert(held =~= before.remove(p as int));
            assert(before.remove(p as int).insert(p as int, grown) =~= before.update(
                p as int,
                grown,
            ));
        } else {
            assert(held == before);
        }
    }
}

/// A piece of a path names something unless it is empty or `.`.
pub open spec fn is_name(piece: Seq<char>) -> bool {
    piece.len() > 0 && piece != seq!['.']
}

/// The pieces that name something, in order.
pub open spec fn names_in(pieces: Seq<Seq<char>>) -> Seq<Seq<char>>
    decreases pieces.len(),
{
    if pieces.len() == 0 {
        seq![]
    } else if is_name(pieces.last()) {
        names_in(pieces.drop_last()).push(pieces.last())
    } else {
        names_in(pieces.drop_last())
    }
}

/// The parts of a path: what stands between its slashes, without the empty
/// pieces and without `.`.
pub open spec fn path_parts(path: Seq<char>) -> Seq<Seq<char>> {
    names_in(text::split_on(path, '/'))
}

/// Splits a path into its parts.
pub fn parts_of(path: &str) -> (parts: Vec<String>)
    ensures
        text::texts_of(parts@) == path_parts(path@),
{
    let v = text::chars_of(path);
    let pieces = text::split_bounds(&v, 0, v.len(), '/');
    assert(v@.subrange(0, v.len() as int) == v@);
    let ghost all = text::cut(v@, pieces@);
    let mut parts: Vec<String> = Vec::new();
    let mut i: usize = 0;
    assert(all.take(0) == Seq::<Seq<char>>::empty());
    while i < pieces.len()
        invariant
            i <= pieces.len(),
            all == text::cut(v@, pieces@),
            text::bounds_within(pieces@, v.len() as nat),
            text::texts_of(parts@) == names_in(all.take(i as int)),
        decreases pieces.len() - i,
    {
        let (a, b) = pieces[i];
        let ghost piece = v@.subrange(a as int, b as int);
        assert(all.take(i + 1).drop_last() == all.take(i as int));
        assert(all.take(i + 1).last() == piece);
        if a == b || (b - a == 1 && v[a] == '.') {
            assert(!is_name(piece)) by {
                if a < b {
                    assert(piece =~= seq!['.']);
                }
            }
        } else {
            assert(is_name(piece)) by {
                if piece == seq!['.'] {
                    assert(piece[0] == '.');
                }
            }
            let ghost before = text::texts_of(parts@);
            parts.push(text::string_of(&v, a, b));
            assert(text::texts_of(parts@) == before.push(piece));
        }
        i = i + 1;
    }
    assert(all.take(pieces.len() as int) == all);
    parts
}

/// The top level of the tree of a list of paths: each path is put in, one
/// after another.
pub open spec fn tree_of(paths: Seq<Seq<char>>) -> Seq<Shape>
    decreases paths.len(),
{
    if paths.len() == 0 {
        seq![]
    } else {
        inserted(tree_of(paths.drop_last()), path_parts(paths.last()))
    }
}

/// Builds the tree of a list of paths and gives its top level.
pub fn build_tree_from_paths(paths: &Vec<String>) -> (level: Vec<Node>)
    ensures
        level_view(level@) == tree_of(text::texts_of(paths@)),
        ordered(level_view(level@)),
{
    let mut level: Vec<Node> = Vec::new();
    let mut i: usize = 0;
    assert(text::texts_of(paths@).take(0) == Seq::<Seq<char>>::empty());
    assert(level_view(level@) == Seq::<Shape>::empty());
    while i < paths.len()
        invariant
            i <= paths.len(),
            level_view(level@) == tree_of(text::texts_of(paths@).take(i as int)),
            ordered(level_view(level@)),
        decreases paths.len() - i,
    {
        let parts = parts_of(paths[i].as_str());
        assert(text::texts_of(parts@).skip(0) == text::texts_of(parts@));
        assert(text::texts_of(paths@).take(i + 1).drop_last() == text::texts_of(paths@).take(i as int));
        assert(text::texts_of(paths@).take(i + 1).last() == paths@[i as int]@);
        insert_path(&mut level, &parts, 0);
        i = i + 1;
    }
    assert(text::texts_of(paths@).take(paths.len() as int) == text::texts_of(paths@));
    proof {
        lemma_tree_ordered(text::texts_of(paths@));
    }
    level
}

/// The names of a level stand in the order of strings, each once.
pub open spec fn sorted(level: Seq<Shape>) -> bool {
    forall|k: int, l: int|
        0 <= k < l < level.len() ==> text::text_lt(
            (#[trigger] level[k]).name,
            (#[trigger] level[l]).name,
        )
}

/// Every level of a tree, from this one down, is sorted.
pub open spec fn ordered(level: Seq<Shape>) -> bool
    decreases level,
{
    sorted(level) && forall|k: int| 0 <= k < level.len() ==> ordered((#[trigger] level[k]).children)
}

/// Where the place of a name lies: after all names that come before it and
/// at a name that does not.
pub proof fn lemma_slot(level: Seq<Shape>, name: Seq<char>, i: int)
    requires
        0 <= i <= level.len(),
    ensures
        i <= slot(level, name, i) <= level.len(),
        forall|k: int| i <= k < slot(level, name, i) ==> text::text_lt((#[trigger] level[k]).name, name),
        slot(level, name, i) < level.len() ==> !text::text_lt(level[slot(level, name, i)].name, name),
    decreases level.len() - i,
{
    if i < level.len() && text::text_lt(level[i].name, name) {
        lemma_slot(level, name, i + 1);
    }
}

/// Putting a path into a tree whose levels are sorted leaves them sorted.
pub proof fn lemma_inserted_ordered(level: Seq<Shape>, parts: Seq<Seq<char>>)
    requires
        ordered(level),
    ensures
        ordered(inserted(level, parts)),
    decreases parts.len(),
{
    if parts.len() > 0 {
        let name = parts[0];
        let p = slot(level, name, 0);
        lemma_slot(level, name, 0);
        let found = 0 <= p < level.len() && level[p].name == name;
        let node = if found {
            level[p]
        } else {
            leaf(name)
        };
        assert(ordered(node.children)) by {
            if !found {
                assert(node.children =~= Seq::<Shape>::empty());
            }
        }
        if parts.len() > 1 {
            lemma_inserted_ordered(node.children, parts.drop_first());
        }
        let new = inserted(level, parts);
        assert(new[p].name == name);
        assert(ordered(new[p].children));
        assert forall|k: int| 0 <= k < new.len() implies ordered((#[trigger] new[k]).children) by {
            if k < p {
                assert(new[k] == level[k]);
            } else if k > p {
                if found {
                    assert(new[k] == level[k]);
                } else {
                    assert(new[k] == level[k - 1]);
                }
            }
        }
        assert forall|k: int, l: int| 0 <= k < l < new.len() implies text::text_lt(
            (#[trigger] new[k]).name,
            (#[trigger] new[l]).name,
        ) by {
            if found {
                assert(new[k].name == level[k].name);
                assert(new[l].name == level[l].name);
            } else {
                let a = if k < p {
                    k
                } else {
                    k - 1
                };
                let b = if l < p {
                    l
                } else {
                    l - 1
                };
                if p < level.len() {
                    text::lemma_text_lt_total(level[p].name, name);
                }
                if k == p {
                    assert(new[l] == level[l - 1]);
                    if l - 1 > p {
                        assert(text::text_lt(level[p].name, level[l - 1].name));
                        text::lemma_text_lt_transitive(name, level[p].name, level[l - 1].name);
                    }
                } else if l == p {
                    assert(new[k] == level[k]);
                } else {
                    assert(new[k] == level[a]);
                    assert(new[l] == level[b]);
                }
            }
        }
    }
}

/// In the tree of any list of paths the names at every level stand in the
/// order of strings, each once.
pub proof fn lemma_tree_ordered(paths: Seq<Seq<char>>)
    ensures
        ordered(tree_of(paths)),
    decreases paths.len(),
{
    if paths.len() > 0 {
        lemma_tree_ordered(paths.drop_last());
        lemma_inserted_ordered(tree_of(paths.drop_last()), path_parts(paths.last()));
    }
}

/// A place that stands behind all names that come before `name` and at a
/// name that does not is the place of `name`.
pub proof fn lemma_slot_is(level: Seq<Shape>, name: Seq<char>, i: int, k: int)
    requires
        0 <= i <= k <= level.len(),
        forall|j: int| i <= j < k ==> text::text_lt((#[trigger] level[j]).name, name),
        k < level.len() ==> !text::text_lt(level[k].name, name),
    ensures
        slot(level, name, i) == k,
    decreases k - i,
{
    if i < k {
        lemma_slot_is(level, name, i + 1, k);
    }
}

/// The node of a level that goes by a name, or a fresh leaf of that name.
pub open spec fn node_at(level: Seq<Shape>, name: Seq<char>) -> Shape {
    let p = slot(level, name, 0);
    if 0 <= p < level.len() && level[p].name == name {
        level[p]
    } else {
        leaf(name)
    }
}

/// A level with `node` put at the place of its name, in place of the node
/// of that name if there is one.
pub open spec fn placed(level: Seq<Shape>, node: Shape) -> Seq<Shape> {
    let p = slot(level, node.name, 0);
    if 0 <= p < level.len() && level[p].name == node.name {
        level.update(p, node)
    } else {
        level.insert(p, node)
    }
}

/// A node after the rest of a path has been put below it: the path ends at
/// the node where nothing is left of it.
pub open spec fn grown(node: Shape, rest: Seq<Seq<char>>) -> Shape {
    if rest.len() == 0 {
        Shape { name: node.name, is_file: true, children: node.children }
    } else {
        Shape { name: node.name, is_file: node.is_file, children: inserted(node.children, rest) }
    }
}

/// Putting a path into a level is placing the grown node of its first part.
pub proof fn lemma_inserted_is_placed(level: Seq<Shape>, parts: Seq<Seq<char>>)
    requires
        parts.len() > 0,
    ensures
        inserted(level, parts) == placed(
            level,
            grown(node_at(level, parts[0]), parts.drop_first()),
        ),
{
    let rest = parts.drop_first();
    if parts.len() == 1 {
        assert(rest.len() == 0);
    } else {
        assert(rest.len() > 0);
    }
}

/// A level has a node of the given name.
pub open spec fn has(level: Seq<Shape>, name: Seq<char>) -> bool {
    let p = slot(level, name, 0);
    0 <= p < level.len() && level[p].name == name
}

/// The place of `name` once `node` has been placed: its old place, moved
/// by one where the node is new and stands before it.
pub open spec fn moved_slot(level: Seq<Shape>, node: Shape, name: Seq<char>) -> int {
    if name == node.name || has(level, node.name) || text::text_lt(name, node.name) {
        slot(level, name, 0)
    } else {
        slot(level, name, 0) + 1
    }
}

/// What placing a node does to the places of names, in a sorted level.
pub proof fn lemma_placed(level: Seq<Shape>, node: Shape, name: Seq<char>)
    requires
        sorted(level),
    ensures
        sorted(placed(level, node)),
        node_at(placed(level, node), node.name) == node,
        name != node.name ==> node_at(placed(level, node), name) == node_at(level, name),
        slot(placed(level, node), name, 0) == moved_slot(level, node, name),
        has(placed(level, node), name) == (name == node.name || has(level, name)),
{
    let x = node.name;
    let p = slot(level, x, 0);
    lemma_slot(level, x, 0);
    let found = 0 <= p < level.len() && level[p].name == x;
    let new = placed(level, node);
    if p < level.len() && !found {
        text::lemma_text_lt_total(level[p].name, x);
    }
    assert forall|k: int, l: int| 0 <= k < l < new.len() implies text::text_lt(
        (#[trigger] new[k]).name,
        (#[trigger] new[l]).name,
    ) by {
        if found {
            assert(new[k].name == level[k].name);
            assert(new[l].name == level[l].name);
        } else {
            if k == p {
                assert(new[l] == level[l - 1]);
                if l - 1 > p {
                    assert(text::text_lt(level[p].name, level[l - 1].name));
                    text::lemma_text_lt_transitive(x, level[p].name, level[l - 1].name);
                }
            } else if l == p {
                assert(new[k] == level[k]);
            } else {
                let a = if k < p {
                    k
                } else {
                    k - 1
                };
                let b = if l < p {
                    l
                } else {
                    l - 1
                };
                assert(new[k] == level[a]);
                assert(new[l] == level[b]);
            }
        }
    }
    // the place of the node's own name
    assert forall|j: int| 0 <= j < p implies text::text_lt((#[trigger] new[j]).name, x) by {
        assert(new[j] == level[j]);
    }
    text::lemma_text_lt_irreflexive(x);
    lemma_slot_is(new, x, 0, p);
    // the place of another name
    if name != x {
        let q = slot(level, name, 0);
        lemma_slot(level, name, 0);
        text::lemma_text_lt_total(x, name);
        if found {
            assert forall|j: int| 0 <= j < q implies text::text_lt(
                (#[trigger] new[j]).name,
                name,
            ) by {
                assert(new[j].name == level[j].name);
            }
            if q < level.len() {
                assert(new[q].name == level[q].name);
            }
            lemma_slot_is(new, name, 0, q);
            if q < level.len() && level[q].name == name {
                assert(q != p);
                assert(new[q] == level[q]);
            }
        } else if text::text_lt(name, x) {
            // the name stands before the new node
            assert(q <= p) by {
                if q > p {
                    assert(text::text_lt(level[p].name, name));
                    text::lemma_text_lt_transitive(level[p].name, name, x);
                }
            }
            assert forall|j: int| 0 <= j < q implies text::text_lt(
                (#[trigger] new[j]).name,
                name,
            ) by {
                assert(new[j] == level[j]);
            }
            if q < p {
                assert(new[q] == level[q]);
            } else {
                assert(new[q] == node);
                text::lemma_text_lt_asymmetric(name, x);
            }
            lemma_slot_is(new, name, 0, q);
        } else {
            // the name stands behind the new node
            assert(text::text_lt(x, name));
            assert(p <= q) by {
                if p > q {
                    assert(text::text_lt(level[q].name, x));
                    text::lemma_text_lt_transitive(level[q].name, x, name);
                }
            }
            assert forall|j: int| 0 <= j < q + 1 implies text::text_lt(
                (#[trigger] new[j]).name,
                name,
            ) by {
                if j < p {
                    assert(new[j] == level[j]);
                } else if j > p {
                    assert(new[j] == level[j - 1]);
                }
            }
            if q < level.len() {
                assert(new[q + 1] == level[q]);
            }
            lemma_slot_is(new, name, 0, q + 1);
        }
    }
}

/// The places of two names stand in the order of the names.
pub proof fn lemma_slots_in_order(level: Seq<Shape>, x: Seq<char>, y: Seq<char>)
    requires
        sorted(level),
        text::text_lt(x, y),
    ensures
        slot(level, x, 0) <= slot(level, y, 0),
        has(level, x) ==> slot(level, x, 0) < slot(level, y, 0),
{
    let p = slot(level, x, 0);
    let q = slot(level, y, 0);
    lemma_slot(level, x, 0);
    lemma_slot(level, y, 0);
    if q < p {
        assert(text::text_lt(level[q].name, x));
        text::lemma_text_lt_transitive(level[q].name, x, y);
    }
    if has(level, x) && p == q {
        assert(level[p].name == x);
    }
}

/// Nodes of different names can be placed in either order.
pub proof fn lemma_placed_commute(level: Seq<Shape>, a: Shape, b: Shape)
    requires
        sorted(level),
        a.name != b.name,
    ensures
        placed(placed(level, a), b) == placed(placed(level, b), a),
{
    lemma_placed(level, a, b.name);
    lemma_placed(level, b, a.name);
    lemma_slot(level, a.name, 0);
    lemma_slot(level, b.name, 0);
    text::lemma_text_lt_total(a.name, b.name);
    if text::text_lt(a.name, b.name) {
        lemma_slots_in_order(level, a.name, b.name);
        text::lemma_text_lt_asymmetric(a.name, b.name);
    } else {
        lemma_slots_in_order(level, b.name, a.name);
        text::lemma_text_lt_asymmetric(b.name, a.name);
    }
    assert(placed(placed(level, a), b) =~= placed(placed(level, b), a));
}

/// Of two nodes of one name placed one after the other, the second stays.
pub proof fn lemma_placed_twice(level: Seq<Shape>, a: Shape, b: Shape)
    requires
        sorted(level),
        a.name == b.name,
    ensures
        placed(placed(level, a), b) == placed(level, b),
{
    lemma_placed(level, a, a.name);
    lemma_slot(level, a.name, 0);
    assert(placed(placed(level, a), b) =~= placed(level, b));
}

/// The node that a level has for a name lies above sorted levels, where
/// the level does.
proof fn lemma_node_at_ordered(level: Seq<Shape>, name: Seq<char>)
    requires
        ordered(level),
    ensures
        ordered(node_at(level, name).children),
        node_at(level, name).name == name,
{
    let p = slot(level, name, 0);
    if 0 <= p < level.len() && level[p].name == name {
        assert(ordered(level[p].children));
    } else {
        assert(leaf(name).children =~= Seq::<Shape>::empty());
    }
}

/// Two paths can be put into a tree in either order.
pub proof fn lemma_inserted_commute(level: Seq<Shape>, a: Seq<Seq<char>>, b: Seq<Seq<char>>)
    requires
        ordered(level),
    ensures
        inserted(inserted(level, a), b) == inserted(inserted(level, b), a),
    decreases a.len() + b.len(),
{
    if a.len() > 0 && b.len() > 0 {
        let x = a[0];
        let y = b[0];
        let ra = a.drop_first();
        let rb = b.drop_first();
        let na = grown(node_at(level, x), ra);
        let nb = grown(node_at(level, y), rb);
        let first = inserted(level, a);
        let second = inserted(level, b);
        lemma_node_at_ordered(level, x);
        lemma_node_at_ordered(level, y);
        lemma_inserted_is_placed(level, a);
        lemma_inserted_is_placed(level, b);
        lemma_inserted_is_placed(first, b);
        lemma_inserted_is_placed(second, a);
        lemma_placed(level, na, y);
        lemma_placed(level, nb, x);
        if x != y {
            lemma_placed_commute(level, na, nb);
        } else {
            let n = node_at(level, x);
            lemma_placed_twice(level, na, grown(na, rb));
            lemma_placed_twice(level, nb, grown(nb, ra));
            if ra.len() > 0 && rb.len() > 0 {
                lemma_inserted_commute(n.children, ra, rb);
            }
            assert(grown(na, rb) == grown(nb, ra));
        }
    }
}

/// A path that is put into a tree twice is in it as if put once.
pub proof fn lemma_inserted_twice(level: Seq<Shape>, a: Seq<Seq<char>>)
    requires
        ordered(level),
    ensures
        inserted(inserted(level, a), a) == inserted(level, a),
    decreases a.len(),
{
    if a.len() > 0 {
        let x = a[0];
        let ra = a.drop_first();
        let n = node_at(level, x);
        let na = grown(n, ra);
        lemma_node_at_ordered(level, x);
        lemma_inserted_is_placed(level, a);
        lemma_inserted_is_placed(inserted(level, a), a);
        lemma_placed(level, na, x);
        lemma_placed_twice(level, na, grown(na, ra));
        if ra.len() > 0 {
            lemma_inserted_twice(n.children, ra);
        }
        assert(grown(na, ra) == na);
    }
}

/// The tree of a list of paths is the tree of the others with any one of
/// them put in last.
pub proof fn lemma_tree_moves_last(paths: Seq<Seq<char>>, j: int)
    requires
        0 <= j < paths.len(),
    ensures
        tree_of(paths) == inserted(tree_of(paths.remove(j)), path_parts(paths[j])),
    decreases paths.len(),
{
    if j == paths.len() - 1 {
        assert(paths.remove(j) =~= paths.drop_last());
    } else {
        let init = paths.drop_last();
        lemma_tree_moves_last(init, j);
        lemma_tree_ordered(init.remove(j));
        lemma_inserted_commute(
            tree_of(init.remove(j)),
            path_parts(paths[j]),
            path_parts(paths.last()),
        );
        assert(paths.remove(j).drop_last() =~= init.remove(j));
        assert(paths.remove(j).last() == paths.last());
        assert(init[j] == paths[j]);
    }
}

/// The tree of a list of paths does not depend on the order of the paths:
/// two lists that hold the same paths, each as often, give the same tree.
pub proof fn lemma_tree_permuted(paths: Seq<Seq<char>>, other: Seq<Seq<char>>)
    requires
        paths.to_multiset() == other.to_multiset(),
    ensures
        tree_of(paths) == tree_of(other),
    decreases paths.len(),
{
    vstd::seq_lib::to_multiset_len(paths);
    vstd::seq_lib::to_multiset_len(other);
    if paths.len() == 0 {
        assert(paths =~= other);
    } else {
        let e = paths.last();
        let last = paths.len() - 1;
        assert(paths[last] == e);
        assert(paths.contains(e));
        vstd::seq_lib::to_multiset_contains(paths, e);
        vstd::seq_lib::to_multiset_contains(other, e);
        let j = choose|j: int| 0 <= j < other.len() && other[j] == e;
        vstd::seq_lib::to_multiset_remove(paths, last);
        vstd::seq_lib::to_multiset_remove(other, j);
        assert(paths.remove(last) =~= paths.drop_last());
        lemma_tree_permuted(paths.drop_last(), other.remove(j));
        lemma_tree_moves_last(other, j);
    }
}

/// The tree of a list of paths does not depend on how often a path stands
/// in the list: one more of a path that the list holds changes nothing.
pub proof fn lemma_tree_repeated(paths: Seq<Seq<char>>, path: Seq<char>)
    requires
        paths.contains(path),
    ensures
        tree_of(paths.push(path)) == tree_of(paths),
{
    let j = choose|j: int| 0 <= j < paths.len() && paths[j] == path;
    lemma_tree_moves_last(paths, j);
    lemma_tree_ordered(paths.remove(j));
    lemma_inserted_twice(tree_of(paths.remove(j)), path_parts(path));
    assert(paths.push(path).drop_last() =~= paths);
    assert(paths.push(path).last() == path);
}

} // verus!
