//! Propagation of layer membership down an entity tree: each entity either
//! declares its own layers or inherits those computed for its parent.
use crate::layers::RenderLayers;
use vstd::prelude::*;

verus! {

/// The layers an entity declares for itself.
#[derive(Debug)]
pub enum VisibleLayers {
    /// Use the layers computed for the parent; an entity without a parent gets no layer.
    Inherited,
    /// Use exactly these layers, whatever the ancestors hold.
    Layers(RenderLayers),
}

/// The layers resolved for an entity, which readers consult.
#[derive(Debug)]
pub struct ComputedVisibleLayers(pub RenderLayers);

/// What a declaration says: `None` to inherit, or the blocks of the declared set.
pub open spec fn declared(v: VisibleLayers) -> Option<Seq<u64>> {
    match v {
        VisibleLayers::Inherited => None,
        VisibleLayers::Layers(layers) => Some(layers@),
    }
}

impl Clone for VisibleLayers {
    fn clone(&self) -> (r: Self)
        ensures
            declared(r) == declared(*self),
    {
        match self {
            VisibleLayers::Inherited => VisibleLayers::Inherited,
            VisibleLayers::Layers(layers) => VisibleLayers::Layers(layers.clone()),
        }
    }
}

impl PartialEq for VisibleLayers {
    fn eq(&self, other: &Self) -> (r: bool) {
        match self {
            VisibleLayers::Inherited => match other {
                VisibleLayers::Inherited => true,
                VisibleLayers::Layers(_) => false,
            },
            VisibleLayers::Layers(a) => match other {
                VisibleLayers::Inherited => false,
                VisibleLayers::Layers(b) => a == b,
            },
        }
    }
}

impl vstd::std_specs::cmp::PartialEqSpecImpl for VisibleLayers {
    open spec fn obeys_eq_spec() -> bool {
        true
    }

    open spec fn eq_spec(&self, other: &Self) -> bool {
        declared(*self) == declared(*other)
    }
}

impl Eq for VisibleLayers {

}

impl PartialEq for ComputedVisibleLayers {
    fn eq(&self, other: &Self) -> (r: bool) {
        self.0 == other.0
    }
}

impl vstd::std_specs::cmp::PartialEqSpecImpl for ComputedVisibleLayers {
    open spec fn obeys_eq_spec() -> bool {
        true
    }

    open spec fn eq_spec(&self, other: &Self) -> bool {
        self.0@ == other.0@
    }
}

impl Eq for ComputedVisibleLayers {

}

impl Default for VisibleLayers {
    /// An entity inherits its layers unless it says otherwise.
    fn default() -> (r: Self)
        ensures
            r matches VisibleLayers::Inherited,
    {
        VisibleLayers::Inherited
    }
}

impl Clone for ComputedVisibleLayers {
    fn clone(&self) -> (r: Self)
        ensures
            r.0@ == self.0@,
    {
        ComputedVisibleLayers(self.0.clone())
    }
}

impl Default for ComputedVisibleLayers {
    /// Before any pass, an entity is taken to hold layer `0`.
    fn default() -> (r: Self)
        ensures
            r.0.wf(),
            r.0.layers() == set![0nat],
    {
        ComputedVisibleLayers(RenderLayers::default())
    }
}

/// The layers an entity resolves to, given the layers it would inherit.
pub open spec fn resolve(visible: VisibleLayers, inherited: Seq<u64>) -> Seq<u64> {
    match visible {
        VisibleLayers::Inherited => inherited,
        VisibleLayers::Layers(layers) => layers@,
    }
}

/// `to` is reached from `from` by following between one and `steps` child links.
pub open spec fn reaches(children: Seq<Vec<usize>>, from: int, to: int, steps: nat) -> bool
    decreases steps,
{
    steps > 0 && 0 <= from < children.len() && exists|i: int|
        0 <= i < children[from].len() && (#[trigger] children[from][i] as int == to || reaches(
            children,
            children[from][i] as int,
            to,
            (steps - 1) as nat,
        ))
}

/// Every entity appears at most once over all child lists.
pub open spec fn one_parent(children: Seq<Vec<usize>>) -> bool {
    forall|p: int, i: int, q: int, j: int|
        0 <= p < children.len() && 0 <= q < children.len() && 0 <= i < children[p].len() && 0
            <= j < children[q].len() && #[trigger] children[p][i] == #[trigger] children[q][j]
            ==> p == q && i == j
}

/// No entity reaches itself within `steps` child links.
pub open spec fn acyclic(children: Seq<Vec<usize>>, steps: nat) -> bool {
    forall|x: int| !#[trigger] reaches(children, x, x, steps)
}

/// Reaching within fewer links is reaching within more.
proof fn lemma_reaches_monotone(children: Seq<Vec<usize>>, a: int, x: int, k: nat, m: nat)
    requires
        reaches(children, a, x, k),
        k <= m,
    ensures
        reaches(children, a, x, m),
    decreases k,
{
    let i = choose|i: int|
        0 <= i < children[a].len() && (#[trigger] children[a][i] as int == x || reaches(
            children,
            children[a][i] as int,
            x,
            (k - 1) as nat,
        ));
    if children[a][i] as int != x {
        lemma_reaches_monotone(children, children[a][i] as int, x, (k - 1) as nat, (m - 1) as nat);
    }
}

/// The last link of a path: whatever `a` reaches is the child of `a` or of
/// something `a` reaches in one link less.
proof fn lemma_reaches_last(children: Seq<Vec<usize>>, a: int, x: int, k: nat)
    requires
        reaches(children, a, x, k),
    ensures
        exists|y: int, j: int|
            0 <= y < children.len() && 0 <= j < children[y].len() && children[y][j] as int == x
                && (y == a || reaches(children, a, y, (k - 1) as nat)),
    decreases k,
{
    let i = choose|i: int|
        0 <= i < children[a].len() && (#[trigger] children[a][i] as int == x || reaches(
            children,
            children[a][i] as int,
            x,
            (k - 1) as nat,
        ));
    let b = children[a][i] as int;
    if b == x {
        assert(children[a][i] as int == x);
    } else {
        lemma_reaches_last(children, b, x, (k - 1) as nat);
        let (y, j) = choose|y: int, j: int|
            0 <= y < children.len() && 0 <= j < children[y].len() && children[y][j] as int == x
                && (y == b || reaches(children, b, y, (k - 2) as nat));
        assert(reaches(children, a, y, (k - 1) as nat)) by {
            assert(children[a][i] as int == b);
        }
    }
}

/// In a forest, one child of `entity` is never reached from another.
proof fn lemma_siblings_apart(
    children: Seq<Vec<usize>>,
    entity: int,
    i: int,
    j: int,
    k: nat,
)
    requires
        one_parent(children),
        acyclic(children, k + 1),
        0 <= entity < children.len(),
        0 <= i < children[entity].len(),
        0 <= j < children[entity].len(),
        i != j,
    ensures
        children[entity][i] != children[entity][j],
        !reaches(children, children[entity][j] as int, children[entity][i] as int, k),
{
    let c = children[entity][i] as int;
    let s = children[entity][j] as int;
    if reaches(children, s, c, k) {
        lemma_reaches_last(children, s, c, k);
        let (y, l) = choose|y: int, l: int|
            0 <= y < children.len() && 0 <= l < children[y].len() && children[y][l] as int == c
                && (y == s || reaches(children, s, y, (k - 1) as nat));
        assert(children[y][l] == children[entity][i]);
        assert(y == entity);
        if y == s {
            assert(reaches(children, entity, entity, 1)) by {
                assert(children[entity][j] as int == s);
            }
            lemma_reaches_monotone(children, entity, entity, 1, k + 1);
        } else {
            assert(reaches(children, entity, entity, k)) by {
                assert(children[entity][j] as int == s);
            }
            lemma_reaches_monotone(children, entity, entity, k, k + 1);
        }
        assert(!reaches(children, entity, entity, k + 1));
    }
}

/// `lvl` gives every entity a height below the number of entities, and each
/// child a lower height than its parent. Such heights exist exactly when the
/// child links have no cycle.
pub open spec fn heights(children: Seq<Vec<usize>>, lvl: Seq<int>) -> bool {
    &&& lvl.len() == children.len()
    &&& forall|x: int| 0 <= x < lvl.len() ==> 0 <= #[trigger] lvl[x] < lvl.len()
    &&& forall|p: int, j: int|
        0 <= p < children.len() && 0 <= j < children[p].len() && (children[p][j] as int)
            < children.len() ==> lvl[#[trigger] children[p][j] as int] < lvl[p]
}

/// The child links have no cycle.
pub open spec fn has_heights(children: Seq<Vec<usize>>) -> bool {
    exists|lvl: Seq<int>| heights(children, lvl)
}

/// A height of entity `x`, taken from one choice of heights.
pub open spec fn height_of(children: Seq<Vec<usize>>, x: int) -> int {
    (choose|lvl: Seq<int>| heights(children, lvl))[x]
}

proof fn lemma_heights(children: Seq<Vec<usize>>)
    requires
        has_heights(children),
    ensures
        forall|x: int|
            0 <= x < children.len() ==> 0 <= #[trigger] height_of(children, x) < children.len(),
        forall|p: int, j: int|
            0 <= p < children.len() && 0 <= j < children[p].len() && (children[p][j] as int)
                < children.len() ==> height_of(children, #[trigger] children[p][j] as int)
                < height_of(children, p),
{
    let lvl = choose|lvl: Seq<int>| heights(children, lvl);
    assert(heights(children, lvl));
    assert forall|p: int, j: int|
        0 <= p < children.len() && 0 <= j < children[p].len() && (children[p][j] as int)
            < children.len() implies height_of(children, #[trigger] children[p][j] as int)
        < height_of(children, p) by {
        assert(lvl[children[p][j] as int] < lvl[p]);
    }
}

/// A forest of entities addressed by index. Entity `i` is tracked when
/// `visible[i]` is `Some`; links to untracked or missing entities are ignored.
pub struct LayerTree {
    pub visible: Vec<Option<VisibleLayers>>,
    pub computed: Vec<ComputedVisibleLayers>,
    pub parent: Vec<Option<usize>>,
    pub children: Vec<Vec<usize>>,
}

impl LayerTree {
    /// All per-entity vectors have one entry per entity and every set is canonical.
    pub open spec fn wf(&self) -> bool {
        &&& self.computed.len() == self.visible.len()
        &&& self.parent.len() == self.visible.len()
        &&& self.children.len() == self.visible.len()
        &&& forall|i: int| 0 <= i < self.computed.len() ==> (#[trigger] self.computed[i]).0.wf()
        &&& forall|i: int|
            0 <= i < self.visible.len() ==> match #[trigger] self.visible[i] {
                Some(VisibleLayers::Layers(layers)) => layers.wf(),
                _ => true,
            }
    }

    /// Entity `i` exists and is tracked.
    pub open spec fn has_entity(&self, i: int) -> bool {
        0 <= i < self.visible.len() && self.visible[i] is Some
    }

    /// The computed layers of entity `i`.
    pub open spec fn computed_at(&self, i: int) -> Seq<u64> {
        self.computed[i].0@
    }

    /// What entity `i` inherits: its parent's computed layers when the parent
    /// is tracked, and no layer otherwise.
    pub open spec fn inherited_at(&self, i: int) -> Seq<u64> {
        match self.parent[i] {
            Some(p) => if self.has_entity(p as int) {
                self.computed_at(p as int)
            } else {
                seq![0u64]
            },
            None => seq![0u64],
        }
    }

    /// `self` and `other` hold the same entities, declarations and links.
    pub open spec fn same_links(&self, other: &Self) -> bool {
        &&& self.visible@ == other.visible@
        &&& self.parent@ == other.parent@
        &&& self.children@ == other.children@
        &&& self.computed.len() == other.computed.len()
    }

    /// No computed value differs between `self` and `other`.
    pub open spec fn same_computed(&self, other: &Self) -> bool {
        forall|i: int| 0 <= i < self.computed.len() ==> self.computed_at(i) == other.computed_at(i)
    }

    /// Parent and child links agree: entity `c` has parent `p` exactly when
    /// `c` is in the child list of `p`.
    pub open spec fn links_agree(&self) -> bool {
        &&& forall|c: int|
            0 <= c < self.parent.len() && (#[trigger] self.parent[c]) is Some && (self.parent[c]->0
                as int) < self.children.len() ==> self.children[self.parent[c]->0 as int]@.contains(
                c as usize,
            )
        &&& forall|p: int, j: int|
            0 <= p < self.children.len() && 0 <= j < self.children[p].len() && (
            #[trigger] self.children[p][j] as int) < self.parent.len() ==> self.parent[
            self.children[p][j] as int] == Some(p as usize)
    }

    /// A tracked entity `x` holds its declared set, or what it inherits.
    pub open spec fn consistent_at(&self, x: int) -> bool {
        self.has_entity(x) ==> self.computed_at(x) == resolve(
            self.visible[x]->0,
            self.inherited_at(x),
        )
    }

    /// Every tracked entity holds its declared set, or what it inherits.
    pub open spec fn consistent(&self) -> bool {
        forall|x: int| 0 <= x < self.visible.len() ==> #[trigger] self.consistent_at(x)
    }

    /// Every tracked entity but those listed in `flagged` is consistent.
    pub open spec fn consistent_except(&self, flagged: Seq<usize>) -> bool {
        forall|x: int|
            0 <= x < self.visible.len() && !#[trigger] self.consistent_at(x) ==> flagged.contains(
                x as usize,
            )
    }
}

/// Trees with the same links and computed values agree on consistency and inheritance.
proof fn lemma_same_state(a: LayerTree, b: LayerTree)
    requires
        a.wf(),
        a.same_links(&b),
        a.same_computed(&b),
    ensures
        forall|x: int|
            0 <= x < a.visible.len() ==> #[trigger] a.consistent_at(x) == b.consistent_at(x)
                && a.inherited_at(x) == b.inherited_at(x),
{
    assert forall|x: int| 0 <= x < a.visible.len() implies #[trigger] a.consistent_at(x)
        == b.consistent_at(x) && a.inherited_at(x) == b.inherited_at(x) by {
        match a.parent[x] {
            Some(p) => {
                if a.has_entity(p as int) {
                    assert(a.computed_at(p as int) == b.computed_at(p as int));
                }
            },
            None => {},
        }
    }
}

/// Recomputes `entity` from the layers it would inherit, and when its value
/// changes pushes the new value to its children, for at most `depth` levels.
/// Where the value does not change, nothing below is visited.
pub fn propagate_recursive(
    parent_render_layers: &RenderLayers,
    entity: usize,
    tree: &mut LayerTree,
    depth: usize,
)
    requires
        old(tree).wf(),
        parent_render_layers.wf(),
    ensures
        final(tree).wf(),
        final(tree).same_links(old(tree)),
        forall|x: int|
            0 <= x < old(tree).computed.len() && final(tree).computed_at(x) != old(
                tree,
            ).computed_at(x) ==> x == entity || reaches(
                old(tree).children@,
                entity as int,
                x,
                (depth - 1) as nat,
            ),
        !old(tree).has_entity(entity as int) || depth == 0 ==> final(tree).same_computed(
            old(tree),
        ),
        old(tree).has_entity(entity as int) && resolve(
            old(tree).visible[entity as int]->0,
            parent_render_layers@,
        ) == old(tree).computed_at(entity as int) ==> final(tree).same_computed(old(tree)),
        old(tree).has_entity(entity as int) && depth > 0 && !reaches(
            old(tree).children@,
            entity as int,
            entity as int,
            (depth - 1) as nat,
        ) ==> final(tree).computed_at(entity as int) == resolve(
            old(tree).visible[entity as int]->0,
            parent_render_layers@,
        ),
        old(tree).has_entity(entity as int) && resolve(
            old(tree).visible[entity as int]->0,
            parent_render_layers@,
        ) != old(tree).computed_at(entity as int) && depth > 1 && one_parent(old(tree).children@)
            && acyclic(old(tree).children@, (depth - 1) as nat) ==> forall|i: int|
            0 <= i < old(tree).children[entity as int].len() && old(tree).has_entity(
                #[trigger] old(tree).children[entity as int][i] as int,
            ) ==> final(tree).computed_at(old(tree).children[entity as int][i] as int)
                == resolve(
                old(tree).visible[old(tree).children[entity as int][i] as int]->0,
                final(tree).computed_at(entity as int),
            ),
        has_heights(old(tree).children@) && entity < old(tree).visible.len() ==> forall|x: int|
            0 <= x < old(tree).computed.len() && final(tree).computed_at(x) != old(
                tree,
            ).computed_at(x) ==> x == entity || height_of(old(tree).children@, x) < height_of(
                old(tree).children@,
                entity as int,
            ),
        has_heights(old(tree).children@) && old(tree).links_agree() && entity < old(
            tree,
        ).visible.len() && height_of(old(tree).children@, entity as int) < depth
            && parent_render_layers@ == old(tree).inherited_at(entity as int) ==> forall|x: int|
            0 <= x < old(tree).visible.len() && !#[trigger] final(tree).consistent_at(x) ==> x
                != entity && !old(tree).consistent_at(x),
    decreases depth,
{
    proof {
        if has_heights(tree.children@) {
            lemma_heights(tree.children@);
        }
    }
    if depth == 0 || entity >= tree.visible.len() {
        return ;
    }
    let render_layers = match &tree.visible[entity] {
        None => {
            return ;
        },
        Some(VisibleLayers::Layers(layers)) => layers.clone(),
        Some(VisibleLayers::Inherited) => parent_render_layers.clone(),
    };
    if tree.computed[entity].0 != render_layers {
        let ghost t0 = *tree;
        tree.computed.set(entity, ComputedVisibleLayers(render_layers.clone()));
        let ghost t1 = *tree;
        let ghost ch = t0.children@;
        let ghost e = entity as int;
        proof {
            if has_heights(ch) {
                lemma_heights(ch);
                match t0.parent[e] {
                    Some(p) => {
                        if t0.links_agree() && (p as int) < t0.visible.len() {
                            assert(t0.children[p as int]@.contains(entity));
                            let j = choose|j: int|
                                0 <= j < ch[p as int].len() && ch[p as int][j] == entity;
                            assert(height_of(ch, ch[p as int][j] as int) < height_of(ch, p as int));
                        }
                        if t0.has_entity(p as int) && p != entity {
                            assert(t1.computed_at(p as int) == t0.computed_at(p as int));
                        }
                    },
                    None => {},
                }
                if t0.links_agree() && parent_render_layers@ == t0.inherited_at(e) {
                    assert(t1.inherited_at(e) == t0.inherited_at(e));
                    assert forall|x: int| 0 <= x < t0.visible.len() && !#[trigger] t1.consistent_at(x)
                        implies x != e && (!t0.consistent_at(x) || exists|j: int|
                        0 <= j < ch[e].len() && ch[e][j] as int == x) by {
                        if x != e {
                            assert(t1.computed_at(x) == t0.computed_at(x));
                            match t0.parent[x] {
                                Some(p) => {
                                    if p as int == e {
                                        assert(t0.children[e]@.contains(x as usize));
                                        let j = choose|j: int|
                                            0 <= j < ch[e].len() && ch[e][j] == x as usize;
                                        assert(ch[e][j] as int == x);
                                    } else if t0.has_entity(p as int) {
                                        assert(t1.computed_at(p as int) == t0.computed_at(
                                            p as int,
                                        ));
                                    }
                                },
                                None => {},
                            }
                        }
                    }
                }
            }
        }
        let n = tree.children[entity].len();
        let mut i: usize = 0;
        while i < n
            invariant
                tree.wf(),
                tree.same_links(&t0),
                render_layers.wf(),
                entity < tree.visible.len(),
                depth > 0,
                n == t0.children[entity as int].len(),
                i <= n,
                forall|x: int|
                    0 <= x < t0.computed.len() && tree.computed_at(x) != t0.computed_at(x) ==> x
                        == entity || reaches(t0.children@, entity as int, x, (depth - 1) as nat),
                !reaches(t0.children@, entity as int, entity as int, (depth - 1) as nat)
                    ==> tree.computed_at(entity as int) == render_layers@,
                ch == t0.children@,
                e == entity as int,
                t0.has_entity(e),
                render_layers@ == resolve(t0.visible[e]->0, parent_render_layers@),
                has_heights(ch) ==> tree.computed_at(e) == render_layers@,
                has_heights(ch) ==> forall|x: int|
                    0 <= x < t0.computed.len() && tree.computed_at(x) != t0.computed_at(x) ==> x
                        == e || height_of(ch, x) < height_of(ch, e),
                has_heights(ch) && t0.links_agree() && height_of(ch, e) < depth
                    && parent_render_layers@ == t0.inherited_at(e) ==> forall|x: int|
                    0 <= x < t0.visible.len() && !#[trigger] tree.consistent_at(x) ==> x != e && (
                    !t0.consistent_at(x) || exists|j: int|
                        i <= j < n && ch[e][j] as int == x),
                depth > 1 && one_parent(t0.children@) && acyclic(
                    t0.children@,
                    (depth - 1) as nat,
                ) ==> forall|j: int|
                    0 <= j < i && t0.has_entity(#[trigger] t0.children[entity as int][j] as int)
                        ==> tree.computed_at(t0.children[entity as int][j] as int) == resolve(
                        t0.visible[t0.children[entity as int][j] as int]->0,
                        render_layers@,
                    ),
            decreases n - i,
        {
            let child = tree.children[entity][i];
            let ghost t2 = *tree;
            propagate_recursive(&render_layers, child, tree, depth - 1);
            proof {
                let c = child as int;
                let len = t0.visible.len();
                assert(t2.children@ == ch);
                if has_heights(ch) {
                    lemma_heights(ch);
                    if c < len {
                        assert(height_of(ch, ch[e][i as int] as int) < height_of(ch, e));
                    } else {
                        lemma_same_state(*tree, t2);
                    }
                    if t0.links_agree() && height_of(ch, e) < depth && parent_render_layers@
                        == t0.inherited_at(e) {
                        if c < len {
                            assert(t2.parent[c] == Some(entity)) by {
                                assert(ch[e][i as int] == child);
                            }
                            assert(t2.links_agree());
                            assert(t2.has_entity(e));
                            assert(t2.computed_at(e) == render_layers@);
                            assert(render_layers@ == t2.inherited_at(c));
                        }
                        assert forall|x: int| 0 <= x < len && !#[trigger] tree.consistent_at(x)
                            implies x != e && (!t0.consistent_at(x) || exists|j: int|
                            i + 1 <= j < n && ch[e][j] as int == x) by {
                            assert(!t2.consistent_at(x));
                            assert(x != c);
                            if exists|j: int| i <= j < n && ch[e][j] as int == x {
                                let j = choose|j: int| i <= j < n && ch[e][j] as int == x;
                                assert(j != i);
                            }
                        }
                    }
                }
                assert forall|x: int|
                    0 <= x < t0.computed.len() && tree.computed_at(x) != t2.computed_at(x)
                        implies reaches(ch, entity as int, x, (depth - 1) as nat) by {
                    assert(ch[entity as int][i as int] == child);
                }
                if depth > 1 && one_parent(ch) && acyclic(ch, (depth - 1) as nat) {
                    if t0.has_entity(child as int) {
                        if reaches(ch, child as int, child as int, (depth - 2) as nat) {
                            lemma_reaches_monotone(
                                ch,
                                child as int,
                                child as int,
                                (depth - 2) as nat,
                                (depth - 1) as nat,
                            );
                        }
                    }
                    assert forall|j: int|
                        0 <= j < i + 1 && t0.has_entity(#[trigger] ch[entity as int][j] as int)
                            implies tree.computed_at(ch[entity as int][j] as int) == resolve(
                            t0.visible[ch[entity as int][j] as int]->0,
                            render_layers@,
                        ) by {
                        if j < i {
                            let c = ch[entity as int][j] as int;
                            lemma_siblings_apart(ch, entity as int, j, i as int, (depth - 2) as nat);
                            if tree.computed_at(c) != t2.computed_at(c) {
                                assert(c == child as int || reaches(
                                    ch,
                                    child as int,
                                    c,
                                    (depth - 2) as nat,
                                ));
                            }
                        }
                    }
                }
            }
            i = i + 1;
        }
        proof {
            if acyclic(t0.children@, (depth - 1) as nat) {
                assert(!reaches(t0.children@, entity as int, entity as int, (depth - 1) as nat));
            }
        }
    }
}

/// The layers `entity` inherits: its parent's computed layers when the
/// parent is tracked, and no layer otherwise.
pub fn inherited_layers(tree: &LayerTree, entity: usize) -> (r: RenderLayers)
    requires
        tree.wf(),
        entity < tree.visible.len(),
    ensures
        r.wf(),
        r@ == tree.inherited_at(entity as int),
{
    match tree.parent[entity] {
        Some(p) => {
            if p < tree.visible.len() && tree.visible[p].is_some() {
                tree.computed[p].0.clone()
            } else {
                RenderLayers::none()
            }
        },
        None => RenderLayers::none(),
    }
}

/// Recomputes one entity from its declaration and its parent, and pushes a
/// changed value down to its descendants.
pub fn update_entity(tree: &mut LayerTree, entity: usize)
    requires
        old(tree).wf(),
    ensures
        final(tree).wf(),
        final(tree).same_links(old(tree)),
        forall|x: int|
            0 <= x < old(tree).computed.len() && final(tree).computed_at(x) != old(
                tree,
            ).computed_at(x) ==> x == entity || reaches(
                old(tree).children@,
                entity as int,
                x,
                (old(tree).visible.len() - 1) as nat,
            ),
        !old(tree).has_entity(entity as int) ==> final(tree).same_computed(old(tree)),
        old(tree).has_entity(entity as int) && resolve(
            old(tree).visible[entity as int]->0,
            old(tree).inherited_at(entity as int),
        ) == old(tree).computed_at(entity as int) ==> final(tree).same_computed(old(tree)),
        old(tree).has_entity(entity as int) && !reaches(
            old(tree).children@,
            entity as int,
            entity as int,
            (old(tree).visible.len() - 1) as nat,
        ) ==> final(tree).computed_at(entity as int) == resolve(
            old(tree).visible[entity as int]->0,
            old(tree).inherited_at(entity as int),
        ),
        old(tree).has_entity(entity as int) && resolve(
            old(tree).visible[entity as int]->0,
            old(tree).inherited_at(entity as int),
        ) != old(tree).computed_at(entity as int) && old(tree).visible.len() > 1 && one_parent(
            old(tree).children@,
        ) && acyclic(old(tree).children@, (old(tree).visible.len() - 1) as nat) ==> forall|i: int|
            0 <= i < old(tree).children[entity as int].len() && old(tree).has_entity(
                #[trigger] old(tree).children[entity as int][i] as int,
            ) ==> final(tree).computed_at(old(tree).children[entity as int][i] as int)
                == resolve(
                old(tree).visible[old(tree).children[entity as int][i] as int]->0,
                final(tree).computed_at(entity as int),
            ),
        has_heights(old(tree).children@) && old(tree).links_agree() ==> forall|x: int|
            0 <= x < old(tree).visible.len() && !#[trigger] final(tree).consistent_at(x) ==> x
                != entity && !old(tree).consistent_at(x),
{
    let len = tree.visible.len();
    if entity < len {
        let inherited = inherited_layers(tree, entity);
        proof {
            if has_heights(tree.children@) {
                lemma_heights(tree.children@);
            }
        }
        propagate_recursive(&inherited, entity, tree, len);
    }
}

/// One propagation pass over the entities flagged in `changed` (their
/// declaration or parent changed), in order. Only flagged entities and
/// their descendants are rewritten; a descendant whose value does not change
/// stops the walk below it. The walk follows at most as many levels as there
/// are entities, so cyclic links cannot make it run forever.
///
/// In an acyclic forest whose parent and child links agree, a tree that was
/// consistent apart from the flagged entities is consistent afterwards: every
/// tracked entity holds its declared set, or what its parent holds. When no
/// flagged entity resolves to a new value, nothing is rewritten.
pub fn visible_layers_propagate(tree: &mut LayerTree, changed: &[usize])
    requires
        old(tree).wf(),
    ensures
        final(tree).wf(),
        final(tree).same_links(old(tree)),
        forall|x: int|
            0 <= x < old(tree).computed.len() && final(tree).computed_at(x) != old(
                tree,
            ).computed_at(x) ==> exists|j: int|
                0 <= j < changed@.len() && (x == changed@[j] || reaches(
                    old(tree).children@,
                    #[trigger] changed@[j] as int,
                    x,
                    (old(tree).visible.len() - 1) as nat,
                )),
        changed@.len() == 1 && old(tree).has_entity(changed@[0] as int) && !reaches(
            old(tree).children@,
            changed@[0] as int,
            changed@[0] as int,
            (old(tree).visible.len() - 1) as nat,
        ) ==> final(tree).computed_at(changed@[0] as int) == resolve(
            old(tree).visible[changed@[0] as int]->0,
            old(tree).inherited_at(changed@[0] as int),
        ),
        (forall|j: int|
            0 <= j < changed@.len() && old(tree).has_entity(#[trigger] changed@[j] as int)
                ==> resolve(
                old(tree).visible[changed@[j] as int]->0,
                old(tree).inherited_at(changed@[j] as int),
            ) == old(tree).computed_at(changed@[j] as int)) ==> final(tree).same_computed(
            old(tree),
        ),
        has_heights(old(tree).children@) && old(tree).links_agree() && old(
            tree,
        ).consistent_except(changed@) ==> final(tree).consistent(),
{
    let ghost t0 = *tree;
    proof {
        if t0.consistent_except(changed@) {
            assert forall|x: int| 0 <= x < t0.visible.len() && !#[trigger] t0.consistent_at(x)
                implies exists|j: int| 0 <= j < changed@.len() && changed@[j] as int == x by {
                assert(changed@.contains(x as usize));
                let j = choose|j: int| 0 <= j < changed@.len() && changed@[j] == x as usize;
                assert(changed@[j] as int == x);
            }
        }
    }
    let mut i: usize = 0;
    while i < changed.len()
        invariant
            tree.wf(),
            tree.same_links(&t0),
            i <= changed@.len(),
            i == 0 ==> tree.same_computed(&t0),
            (forall|j: int|
                0 <= j < changed@.len() && t0.has_entity(#[trigger] changed@[j] as int)
                    ==> resolve(
                    t0.visible[changed@[j] as int]->0,
                    t0.inherited_at(changed@[j] as int),
                ) == t0.computed_at(changed@[j] as int)) ==> tree.same_computed(&t0),
            has_heights(t0.children@) && t0.links_agree() && t0.consistent_except(changed@)
                ==> forall|x: int|
                0 <= x < t0.visible.len() && !#[trigger] tree.consistent_at(x) ==> exists|j: int|
                    i <= j < changed@.len() && changed@[j] as int == x,
            i == 1 && changed@.len() == 1 && t0.has_entity(changed@[0] as int) && !reaches(
                t0.children@,
                changed@[0] as int,
                changed@[0] as int,
                (t0.visible.len() - 1) as nat,
            ) ==> tree.computed_at(changed@[0] as int) == resolve(
                t0.visible[changed@[0] as int]->0,
                t0.inherited_at(changed@[0] as int),
            ),
            forall|x: int|
                0 <= x < t0.computed.len() && tree.computed_at(x) != t0.computed_at(x)
                    ==> exists|j: int|
                    0 <= j < i && (x == changed@[j] || reaches(
                        t0.children@,
                        #[trigger] changed@[j] as int,
                        x,
                        (t0.visible.len() - 1) as nat,
                    )),
        decreases changed@.len() - i,
    {
        let ghost t1 = *tree;
        update_entity(tree, changed[i]);
        proof {
            let e = changed@[i as int] as int;
            assert(t1.children@ == t0.children@);
            if t1.same_computed(&t0) {
                lemma_same_state(t1, t0);
            }
            if tree.same_computed(&t1) && t1.same_computed(&t0) {
                assert(tree.same_computed(&t0));
            }
            if has_heights(t0.children@) && t0.links_agree() && t0.consistent_except(changed@) {
                assert(t1.links_agree());
                assert forall|x: int| 0 <= x < t0.visible.len() && !#[trigger] tree.consistent_at(
                    x,
                ) implies exists|j: int| i + 1 <= j < changed@.len() && changed@[j] as int == x by {
                    assert(!t1.consistent_at(x));
                    let j = choose|j: int| i <= j < changed@.len() && changed@[j] as int == x;
                    assert(j != i);
                }
            }
            if i == 0 {
                let e = changed@[0] as int;
                if 0 <= e < t0.visible.len() {
                    match t0.parent[e] {
                        Some(p) => {
                            if t0.has_entity(p as int) {
                                assert(t1.computed_at(p as int) == t0.computed_at(p as int));
                            }
                        },
                        None => {},
                    }
                    assert(t1.inherited_at(e) == t0.inherited_at(e));
                }
            }
            assert forall|x: int|
                0 <= x < t0.computed.len() && tree.computed_at(x) != t0.computed_at(x)
                    implies exists|j: int|
                    0 <= j < i + 1 && (x == changed@[j] || reaches(
                        t0.children@,
                        #[trigger] changed@[j] as int,
                        x,
                        (t0.visible.len() - 1) as nat,
                    )) by {
                if tree.computed_at(x) != t1.computed_at(x) {
                    assert(x == changed@[i as int] || reaches(
                        t0.children@,
                        changed@[i as int] as int,
                        x,
                        (t0.visible.len() - 1) as nat,
                    ));
                }
            }
        }
        i = i + 1;
    }
}

impl LayerTree {
    /// A tree with no entities.
    pub fn new() -> (r: Self)
        ensures
            r.wf(),
            r.visible.len() == 0,
    {
        LayerTree { visible: Vec::new(), computed: Vec::new(), parent: Vec::new(), children: Vec::new() }
    }

    /// Adds a tracked entity declaring `visible`, as the last child of
    /// `parent` when that entity exists, and returns its index. Its computed
    /// layers start as the default, layer `0`.
    pub fn add_entity(&mut self, visible: VisibleLayers, parent: Option<usize>) -> (id: usize)
        requires
            old(self).wf(),
            old(self).visible.len() < usize::MAX,
            visible matches VisibleLayers::Layers(layers) ==> layers.wf(),
        ensures
            final(self).wf(),
            id == old(self).visible.len(),
            final(self).visible@ == old(self).visible@.push(Some(visible)),
            final(self).parent@ == old(self).parent@.push(parent),
            final(self).computed_at(id as int) == seq![1u64],
            forall|i: int| 0 <= i < id ==> final(self).computed_at(i) == old(self).computed_at(i),
            final(self).children[id as int]@ == Seq::<usize>::empty(),
            forall|i: int|
                0 <= i < id ==> final(self).children[i]@ == if parent == Some(i as usize) {
                    old(self).children[i]@.push(id)
                } else {
                    old(self).children[i]@
                },
    {
        let id = self.visible.len();
        self.visible.push(Some(visible));
        self.computed.push(ComputedVisibleLayers(RenderLayers::layer(0)));
        self.parent.push(parent);
        self.children.push(Vec::new());
        if let Some(p) = parent {
            if p < id {
                let mut kids: Vec<usize> = Vec::new();
                self.children.set_and_swap(p, &mut kids);
                kids.push(id);
                self.children.set_and_swap(p, &mut kids);
            }
        }
        proof {
            assert(self.computed_at(id as int) == seq![1u64]) by {
                assert(1u64 << 0u64 == 1u64) by (bit_vector);
            }
        }
        id
    }

    /// Replaces what `entity` declares. The change takes effect at the next
    /// pass that flags `entity`.
    pub fn set_visible(&mut self, entity: usize, visible: VisibleLayers)
        requires
            old(self).wf(),
            entity < old(self).visible.len(),
            visible matches VisibleLayers::Layers(layers) ==> layers.wf(),
        ensures
            final(self).wf(),
            final(self).visible@ == old(self).visible@.update(entity as int, Some(visible)),
            final(self).computed@ == old(self).computed@,
            final(self).parent@ == old(self).parent@,
            final(self).children@ == old(self).children@,
    {
        self.visible.set(entity, Some(visible));
    }

    /// The computed layers of `entity`.
    pub fn computed_layers(&self, entity: usize) -> (r: &RenderLayers)
        requires
            entity < self.computed.len(),
        ensures
            r@ == self.computed_at(entity as int),
    {
        &self.computed[entity].0
    }
}

} // verus!
