//! The split layout of a tab: a binary tree whose leaves are terminal panels.
//!
//! A fraction names a point along one axis of the tab, as the binary digits
//! after the point of a number in `[0, 1)`: `[false, true]` is 0.01 in base
//! two, a quarter. Halving a fraction pushes a digit in front of it.
use vstd::prelude::*;

verus! {

/// Identity of one terminal panel.
#[derive(Debug, Clone, Copy, PartialEq, Eq, Structural, Hash)]
pub struct PanelId(pub u64);

/// Direction of a split, or of a measure along the tab.
#[derive(Debug, Clone, Copy, PartialEq, Eq, Structural)]
pub enum Axis {
    Horizontal,
    Vertical,
}

/// Where focus moves between panels.
#[derive(Debug, Clone, Copy, PartialEq, Eq, Structural)]
pub enum NavDirection {
    Left,
    Right,
    Up,
    Down,
}

/// A panel, or two panels side by side (`Horizontal`) or stacked
/// (`Vertical`), the first one left or on top.
#[derive(Debug, PartialEq, Eq)]
pub enum PanelNode {
    Leaf(PanelId),
    Horizontal(Box<PanelNode>, Box<PanelNode>),
    Vertical(Box<PanelNode>, Box<PanelNode>),
}

impl Clone for PanelNode {
    fn clone(&self) -> (r: Self)
        ensures
            r == *self,
        decreases self,
    {
        match self {
            PanelNode::Leaf(id) => PanelNode::Leaf(*id),
            PanelNode::Horizontal(a, b) => {
                let ca = (**a).clone();
                let cb = (**b).clone();
                PanelNode::Horizontal(Box::new(ca), Box::new(cb))
            },
            PanelNode::Vertical(a, b) => {
                let ca = (**a).clone();
                let cb = (**b).clone();
                PanelNode::Vertical(Box::new(ca), Box::new(cb))
            },
        }
    }
}

/// The rest of a fraction once its leading digit is read: the fraction
/// doubled, less one half when that digit was set.
pub open spec fn doubled(f: Seq<bool>) -> Seq<bool> {
    if f.len() == 0 {
        f
    } else {
        f.drop_first()
    }
}

/// Is the fraction at least one half.
pub open spec fn upper_half(f: Seq<bool>) -> bool {
    f.len() > 0 && f[0]
}

impl PanelNode {
    /// The panels, left to right and top to bottom.
    pub open spec fn spec_leaves(self) -> Seq<PanelId>
        decreases self,
    {
        match self {
            PanelNode::Leaf(id) => seq![id],
            PanelNode::Horizontal(a, b) => a.spec_leaves() + b.spec_leaves(),
            PanelNode::Vertical(a, b) => a.spec_leaves() + b.spec_leaves(),
        }
    }

    /// Does the tree hold panel `id`.
    pub open spec fn has(self, id: PanelId) -> bool
        decreases self,
    {
        match self {
            PanelNode::Leaf(pid) => pid == id,
            PanelNode::Horizontal(a, b) => a.has(id) || b.has(id),
            PanelNode::Vertical(a, b) => a.has(id) || b.has(id),
        }
    }

    /// Every panel occurs once.
    pub open spec fn wf(self) -> bool {
        self.spec_leaves().no_duplicates()
    }

    /// Where panel `id` starts along `axis`, each split along it halving the
    /// room of its two sides.
    pub open spec fn fraction(self, id: PanelId, axis: Axis) -> Option<Seq<bool>>
        decreases self,
    {
        match self {
            PanelNode::Leaf(pid) => if pid == id { Some(Seq::empty()) } else { None },
            PanelNode::Horizontal(a, b) => {
                if a.has(id) {
                    match a.fraction(id, axis) {
                        Some(f) => Some(if axis == Axis::Horizontal { seq![false] + f } else { f }),
                        None => None,
                    }
                } else if b.has(id) {
                    match b.fraction(id, axis) {
                        Some(f) => Some(if axis == Axis::Horizontal { seq![true] + f } else { f }),
                        None => None,
                    }
                } else {
                    None
                }
            },
            PanelNode::Vertical(a, b) => {
                if a.has(id) {
                    match a.fraction(id, axis) {
                        Some(f) => Some(if axis == Axis::Vertical { seq![false] + f } else { f }),
                        None => None,
                    }
                } else if b.has(id) {
                    match b.fraction(id, axis) {
                        Some(f) => Some(if axis == Axis::Vertical { seq![true] + f } else { f }),
                        None => None,
                    }
                } else {
                    None
                }
            },
        }
    }

    /// The panel found at fraction `f` along `axis`, taking the first side of
    /// every split across it.
    pub open spec fn at_fraction(self, f: Seq<bool>, axis: Axis) -> PanelId
        decreases self,
    {
        match self {
            PanelNode::Leaf(id) => id,
            PanelNode::Horizontal(a, b) => {
                if axis == Axis::Horizontal {
                    if upper_half(f) {
                        b.at_fraction(doubled(f), axis)
                    } else {
                        a.at_fraction(doubled(f), axis)
                    }
                } else {
                    a.at_fraction(f, axis)
                }
            },
            PanelNode::Vertical(a, b) => {
                if axis == Axis::Vertical {
                    if upper_half(f) {
                        b.at_fraction(doubled(f), axis)
                    } else {
                        a.at_fraction(doubled(f), axis)
                    }
                } else {
                    a.at_fraction(f, axis)
                }
            },
        }
    }

    /// The panel across the nearest split in direction `dir` from `target`,
    /// at the height (or column) where `target` starts.
    pub open spec fn neighbour(self, target: PanelId, dir: NavDirection) -> Option<PanelId>
        decreases self,
    {
        match self {
            PanelNode::Leaf(_) => None,
            PanelNode::Horizontal(a, b) => {
                if dir == NavDirection::Right && a.has(target) {
                    match a.neighbour(target, dir) {
                        Some(n) => Some(n),
                        None => match a.fraction(target, Axis::Vertical) {
                            Some(f) => Some(b.at_fraction(f, Axis::Vertical)),
                            None => None,
                        },
                    }
                } else if dir == NavDirection::Left && b.has(target) {
                    match b.neighbour(target, dir) {
                        Some(n) => Some(n),
                        None => match b.fraction(target, Axis::Vertical) {
                            Some(f) => Some(a.at_fraction(f, Axis::Vertical)),
                            None => None,
                        },
                    }
                } else if a.has(target) {
                    a.neighbour(target, dir)
                } else if b.has(target) {
                    b.neighbour(target, dir)
                } else {
                    None
                }
            },
            PanelNode::Vertical(a, b) => {
                if dir == NavDirection::Down && a.has(target) {
                    match a.neighbour(target, dir) {
                        Some(n) => Some(n),
                        None => match a.fraction(target, Axis::Horizontal) {
                            Some(f) => Some(b.at_fraction(f, Axis::Horizontal)),
                            None => None,
                        },
                    }
                } else if dir == NavDirection::Up && b.has(target) {
                    match b.neighbour(target, dir) {
                        Some(n) => Some(n),
                        None => match b.fraction(target, Axis::Horizontal) {
                            Some(f) => Some(a.at_fraction(f, Axis::Horizontal)),
                            None => None,
                        },
                    }
                } else if a.has(target) {
                    a.neighbour(target, dir)
                } else if b.has(target) {
                    b.neighbour(target, dir)
                } else {
                    None
                }
            },
        }
    }

    /// The tree with every leaf `target` replaced by `replacement`.
    pub open spec fn replaced(self, target: PanelId, replacement: PanelNode) -> PanelNode
        decreases self,
    {
        match self {
            PanelNode::Leaf(id) => if id == target { replacement } else { self },
            PanelNode::Horizontal(a, b) => PanelNode::Horizontal(
                Box::new(a.replaced(target, replacement)),
                Box::new(b.replaced(target, replacement)),
            ),
            PanelNode::Vertical(a, b) => PanelNode::Vertical(
                Box::new(a.replaced(target, replacement)),
                Box::new(b.replaced(target, replacement)),
            ),
        }
    }

    /// The tree without panel `target`, its sibling taking the place of the
    /// split that held them; `None` when the tree is that one panel.
    pub open spec fn removed(self, target: PanelId) -> Option<PanelNode>
        decreases self,
    {
        match self {
            PanelNode::Leaf(id) => if id == target { None } else { Some(self) },
            PanelNode::Horizontal(a, b) => {
                if a.has(target) {
                    if *a == PanelNode::Leaf(target) {
                        Some(*b)
                    } else {
                        match a.removed(target) {
                            Some(na) => Some(PanelNode::Horizontal(Box::new(na), b)),
                            None => None,
                        }
                    }
                } else {
                    if *b == PanelNode::Leaf(target) {
                        Some(*a)
                    } else {
                        match b.removed(target) {
                            Some(nb) => Some(PanelNode::Horizontal(a, Box::new(nb))),
                            None => None,
                        }
                    }
                }
            },
            PanelNode::Vertical(a, b) => {
                if a.has(target) {
                    if *a == PanelNode::Leaf(target) {
                        Some(*b)
                    } else {
                        match a.removed(target) {
                            Some(na) => Some(PanelNode::Vertical(Box::new(na), b)),
                            None => None,
                        }
                    }
                } else {
                    if *b == PanelNode::Leaf(target) {
                        Some(*a)
                    } else {
                        match b.removed(target) {
                            Some(nb) => Some(PanelNode::Vertical(a, Box::new(nb))),
                            None => None,
                        }
                    }
                }
            },
        }
    }

    /// Whether the tree holds panel `id`.
    pub fn contains(&self, id: PanelId) -> (r: bool)
        ensures
            r == self.has(id),
        decreases self,
    {
        match self {
            PanelNode::Leaf(pid) => *pid == id,
            PanelNode::Horizontal(a, b) => a.contains(id) || b.contains(id),
            PanelNode::Vertical(a, b) => a.contains(id) || b.contains(id),
        }
    }

    /// The panels, left to right and top to bottom.
    pub fn leaves(&self) -> (r: Vec<PanelId>)
        ensures
            r@ == self.spec_leaves(),
        decreases self,
    {
        match self {
            PanelNode::Leaf(id) => {
                let mut v = Vec::new();
                v.push(*id);
                assert(v@ =~= seq![*id]);
                v
            },
            PanelNode::Horizontal(a, b) => {
                let mut v = a.leaves();
                let mut w = b.leaves();
                v.append(&mut w);
                v
            },
            PanelNode::Vertical(a, b) => {
                let mut v = a.leaves();
                let mut w = b.leaves();
                v.append(&mut w);
                v
            },
        }
    }

    /// Where panel `id` starts along `axis`, `None` when it is not here.
    pub fn leaf_fraction(&self, id: PanelId, axis: Axis) -> (r: Option<Vec<bool>>)
        ensures
            match r {
                Some(f) => self.fraction(id, axis) == Some(f@),
                None => self.fraction(id, axis) is None,
            },
        decreases self,
    {
        match self {
            PanelNode::Leaf(pid) => {
                if *pid == id {
                    let v: Vec<bool> = Vec::new();
                    assert(v@ =~= Seq::<bool>::empty());
                    Some(v)
                } else {
                    None
                }
            },
            PanelNode::Horizontal(a, b) => {
                if a.contains(id) {
                    match a.leaf_fraction(id, axis) {
                        Some(f) => Some(if axis == Axis::Horizontal { prepend(false, f) } else { f }),
                        None => None,
                    }
                } else if b.contains(id) {
                    match b.leaf_fraction(id, axis) {
                        Some(f) => Some(if axis == Axis::Horizontal { prepend(true, f) } else { f }),
                        None => None,
                    }
                } else {
                    None
                }
            },
            PanelNode::Vertical(a, b) => {
                if a.contains(id) {
                    match a.leaf_fraction(id, axis) {
                        Some(f) => Some(if axis == Axis::Vertical { prepend(false, f) } else { f }),
                        None => None,
                    }
                } else if b.contains(id) {
                    match b.leaf_fraction(id, axis) {
                        Some(f) => Some(if axis == Axis::Vertical { prepend(true, f) } else { f }),
                        None => None,
                    }
                } else {
                    None
                }
            },
        }
    }

    /// The panel at fraction `fraction` along `axis`.
    pub fn leaf_at_fraction(&self, fraction: &Vec<bool>, axis: Axis) -> (r: Option<PanelId>)
        ensures
            r == Some(self.at_fraction(fraction@, axis)),
    {
        assert(fraction@.subrange(0, fraction@.len() as int) =~= fraction@);
        Some(self.leaf_at_digits(fraction, 0, axis))
    }

    fn leaf_at_digits(&self, fraction: &Vec<bool>, from: usize, axis: Axis) -> (r: PanelId)
        requires
            from <= fraction@.len(),
        ensures
            r == self.at_fraction(fraction@.subrange(from as int, fraction@.len() as int), axis),
        decreases self,
    {
        let ghost f = fraction@.subrange(from as int, fraction@.len() as int);
        let upper = from < fraction.len() && fraction[from];
        let next = if from < fraction.len() { from + 1 } else { from };
        proof {
            assert(upper == upper_half(f));
            if from < fraction@.len() {
                assert(doubled(f) =~= fraction@.subrange(next as int, fraction@.len() as int));
            } else {
                assert(doubled(f) =~= fraction@.subrange(next as int, fraction@.len() as int));
            }
        }
        match self {
            PanelNode::Leaf(id) => *id,
            PanelNode::Horizontal(a, b) => {
                if axis == Axis::Horizontal {
                    if upper {
                        b.leaf_at_digits(fraction, next, axis)
                    } else {
                        a.leaf_at_digits(fraction, next, axis)
                    }
                } else {
                    a.leaf_at_digits(fraction, from, axis)
                }
            },
            PanelNode::Vertical(a, b) => {
                if axis == Axis::Vertical {
                    if upper {
                        b.leaf_at_digits(fraction, next, axis)
                    } else {
                        a.leaf_at_digits(fraction, next, axis)
                    }
                } else {
                    a.leaf_at_digits(fraction, from, axis)
                }
            },
        }
    }

    /// The neighbour of `target` in direction `dir`.
    pub fn find_neighbour(&self, target: PanelId, dir: NavDirection) -> (r: Option<PanelId>)
        ensures
            r == self.neighbour(target, dir),
        decreases self,
    {
        match self {
            PanelNode::Leaf(_) => None,
            PanelNode::Horizontal(a, b) => {
                let in_a = a.contains(target);
                let in_b = b.contains(target);
                if dir == NavDirection::Right && in_a {
                    match a.find_neighbour(target, dir) {
                        Some(n) => Some(n),
                        None => match a.leaf_fraction(target, Axis::Vertical) {
                            Some(f) => b.leaf_at_fraction(&f, Axis::Vertical),
                            None => None,
                        },
                    }
                } else if dir == NavDirection::Left && in_b {
                    match b.find_neighbour(target, dir) {
                        Some(n) => Some(n),
                        None => match b.leaf_fraction(target, Axis::Vertical) {
                            Some(f) => a.leaf_at_fraction(&f, Axis::Vertical),
                            None => None,
                        },
                    }
                } else if in_a {
                    a.find_neighbour(target, dir)
                } else if in_b {
                    b.find_neighbour(target, dir)
                } else {
                    None
                }
            },
            PanelNode::Vertical(a, b) => {
                let in_a = a.contains(target);
                let in_b = b.contains(target);
                if dir == NavDirection::Down && in_a {
                    match a.find_neighbour(target, dir) {
                        Some(n) => Some(n),
                        None => match a.leaf_fraction(target, Axis::Horizontal) {
                            Some(f) => b.leaf_at_fraction(&f, Axis::Horizontal),
                            None => None,
                        },
                    }
                } else if dir == NavDirection::Up && in_b {
                    match b.find_neighbour(target, dir) {
                        Some(n) => Some(n),
                        None => match b.leaf_fraction(target, Axis::Horizontal) {
                            Some(f) => a.leaf_at_fraction(&f, Axis::Horizontal),
                            None => None,
                        },
                    }
                } else if in_a {
                    a.find_neighbour(target, dir)
                } else if in_b {
                    b.find_neighbour(target, dir)
                } else {
                    None
                }
            },
        }
    }

    /// The tree with every leaf `target` replaced by `replacement`.
    pub fn replace_leaf(self, target: PanelId, replacement: PanelNode) -> (r: PanelNode)
        ensures
            r == self.replaced(target, replacement),
        decreases self,
    {
        match self {
            PanelNode::Leaf(id) => {
                if id == target {
                    replacement
                } else {
                    PanelNode::Leaf(id)
                }
            },
            PanelNode::Horizontal(a, b) => {
                let na = (*a).replace_leaf(target, replacement.clone());
                let nb = (*b).replace_leaf(target, replacement);
                PanelNode::Horizontal(Box::new(na), Box::new(nb))
            },
            PanelNode::Vertical(a, b) => {
                let na = (*a).replace_leaf(target, replacement.clone());
                let nb = (*b).replace_leaf(target, replacement);
                PanelNode::Vertical(Box::new(na), Box::new(nb))
            },
        }
    }

    /// Whether this node is the single panel `id`.
    fn is_leaf_of(&self, id: PanelId) -> (r: bool)
        ensures
            r == (*self == PanelNode::Leaf(id)),
    {
        match self {
            PanelNode::Leaf(pid) => *pid == id,
            _ => false,
        }
    }

    /// The tree without panel `target`; `None` when it is the only panel.
    pub fn remove_leaf(self, target: PanelId) -> (r: Option<PanelNode>)
        ensures
            r == self.removed(target),
        decreases self,
    {
        match self {
            PanelNode::Leaf(id) => {
                if id == target {
                    None
                } else {
                    Some(PanelNode::Leaf(id))
                }
            },
            PanelNode::Horizontal(a, b) => {
                if a.contains(target) {
                    if a.is_leaf_of(target) {
                        return Some(*b);
                    }
                    match (*a).remove_leaf(target) {
                        Some(na) => Some(PanelNode::Horizontal(Box::new(na), b)),
                        None => None,
                    }
                } else {
                    if b.is_leaf_of(target) {
                        return Some(*a);
                    }
                    match (*b).remove_leaf(target) {
                        Some(nb) => Some(PanelNode::Horizontal(a, Box::new(nb))),
                        None => None,
                    }
                }
            },
            PanelNode::Vertical(a, b) => {
                if a.contains(target) {
                    if a.is_leaf_of(target) {
                        return Some(*b);
                    }
                    match (*a).remove_leaf(target) {
                        Some(na) => Some(PanelNode::Vertical(Box::new(na), b)),
                        None => None,
                    }
                } else {
                    if b.is_leaf_of(target) {
                        return Some(*a);
                    }
                    match (*b).remove_leaf(target) {
                        Some(nb) => Some(PanelNode::Vertical(a, Box::new(nb))),
                        None => None,
                    }
                }
            },
        }
    }
}

/// `f` with digit `d` in front: `f` halved, plus one half when `d` is set.
fn prepend(d: bool, f: Vec<bool>) -> (r: Vec<bool>)
    ensures
        r@ == seq![d] + f@,
{
    let mut r = Vec::new();
    r.push(d);
    let mut i: usize = 0;
    while i < f.len()
        invariant
            i <= f@.len(),
            r@ == seq![d] + f@.subrange(0, i as int),
        decreases f@.len() - i,
    {
        r.push(f[i]);
        i = i + 1;
        assert(r@ =~= seq![d] + f@.subrange(0, i as int));
    }
    assert(f@.subrange(0, f@.len() as int) =~= f@);
    r
}


/// Number of nodes of the tree.
pub open spec fn node_count(t: PanelNode) -> nat
    decreases t,
{
    match t {
        PanelNode::Leaf(_) => 1,
        PanelNode::Horizontal(a, b) => node_count(*a) + node_count(*b) + 1,
        PanelNode::Vertical(a, b) => node_count(*a) + node_count(*b) + 1,
    }
}

pub proof fn lemma_node_count_positive(t: PanelNode)
    ensures
        node_count(t) >= 1,
{
}

/// The two sides of a split each hold every panel once, and no panel is on
/// both sides, when the split does.
proof fn lemma_wf_sides(a: PanelNode, b: PanelNode)
    requires
        (a.spec_leaves() + b.spec_leaves()).no_duplicates(),
    ensures
        a.wf(),
        b.wf(),
        forall|id: PanelId| !(a.has(id) && b.has(id)),
{
    let la = a.spec_leaves();
    let lb = b.spec_leaves();
    let l = la + lb;
    assert forall|i: int, j: int| 0 <= i < la.len() && 0 <= j < la.len() && i != j implies la[i] != la[j] by {
        assert(l[i] == la[i] && l[j] == la[j]);
    }
    assert forall|i: int, j: int| 0 <= i < lb.len() && 0 <= j < lb.len() && i != j implies lb[i] != lb[j] by {
        assert(l[la.len() + i] == lb[i] && l[la.len() + j] == lb[j]);
    }
    assert forall|id: PanelId| !(a.has(id) && b.has(id)) by {
        law_has_iff_leaf(a, id);
        law_has_iff_leaf(b, id);
        if a.has(id) && b.has(id) {
            let i = choose|i: int| 0 <= i < la.len() && la[i] == id;
            let j = choose|j: int| 0 <= j < lb.len() && lb[j] == id;
            assert(l[i] == l[la.len() + j]);
        }
    }
}

/// A panel is in the tree exactly when it is one of its leaves.
pub proof fn law_has_iff_leaf(t: PanelNode, id: PanelId)
    ensures
        t.has(id) <==> t.spec_leaves().contains(id),
    decreases node_count(t),
{
    match t {
        PanelNode::Leaf(pid) => {
            if pid == id {
                assert(t.spec_leaves()[0] == id);
            }
        },
        PanelNode::Horizontal(a, b) => {
            lemma_has_split(*a, *b, id);
        },
        PanelNode::Vertical(a, b) => {
            lemma_has_split(*a, *b, id);
        },
    }
}

proof fn lemma_has_split(a: PanelNode, b: PanelNode, id: PanelId)
    ensures
        (a.has(id) || b.has(id)) <==> (a.spec_leaves() + b.spec_leaves()).contains(id),
    decreases node_count(a) + node_count(b),
{
    lemma_node_count_positive(a);
    lemma_node_count_positive(b);
    law_has_iff_leaf(a, id);
    law_has_iff_leaf(b, id);
    let la = a.spec_leaves();
    let lb = b.spec_leaves();
    let l = la + lb;
    if a.has(id) {
        let i = choose|i: int| 0 <= i < la.len() && la[i] == id;
        assert(l[i] == id);
    }
    if b.has(id) {
        let i = choose|i: int| 0 <= i < lb.len() && lb[i] == id;
        assert(l[la.len() + i] == id);
    }
    if l.contains(id) {
        let i = choose|i: int| 0 <= i < l.len() && l[i] == id;
        if i < la.len() {
            assert(la[i] == id);
        } else {
            assert(lb[i - la.len()] == id);
        }
    }
}

/// A panel has a place along either axis exactly when it is in the tree.
pub proof fn law_fraction_iff_has(t: PanelNode, id: PanelId, axis: Axis)
    ensures
        t.fraction(id, axis) is Some <==> t.has(id),
    decreases t,
{
    match t {
        PanelNode::Leaf(_) => {},
        PanelNode::Horizontal(a, b) => {
            law_fraction_iff_has(*a, id, axis);
            law_fraction_iff_has(*b, id, axis);
        },
        PanelNode::Vertical(a, b) => {
            law_fraction_iff_has(*a, id, axis);
            law_fraction_iff_has(*b, id, axis);
        },
    }
}

/// Whatever the fraction, the panel found there is in the tree.
pub proof fn law_at_fraction_in_tree(t: PanelNode, f: Seq<bool>, axis: Axis)
    ensures
        t.has(t.at_fraction(f, axis)),
    decreases t,
{
    match t {
        PanelNode::Leaf(_) => {},
        PanelNode::Horizontal(a, b) => {
            law_at_fraction_in_tree(*a, f, axis);
            law_at_fraction_in_tree(*b, f, axis);
            law_at_fraction_in_tree(*a, doubled(f), axis);
            law_at_fraction_in_tree(*b, doubled(f), axis);
        },
        PanelNode::Vertical(a, b) => {
            law_at_fraction_in_tree(*a, f, axis);
            law_at_fraction_in_tree(*b, f, axis);
            law_at_fraction_in_tree(*a, doubled(f), axis);
            law_at_fraction_in_tree(*b, doubled(f), axis);
        },
    }
}

/// Every split of the tree runs along `axis`.
pub open spec fn splits_along(t: PanelNode, axis: Axis) -> bool
    decreases t,
{
    match t {
        PanelNode::Leaf(_) => true,
        PanelNode::Horizontal(a, b) => axis == Axis::Horizontal && splits_along(*a, axis)
            && splits_along(*b, axis),
        PanelNode::Vertical(a, b) => axis == Axis::Vertical && splits_along(*a, axis)
            && splits_along(*b, axis),
    }
}

/// When every split runs along `axis`, the panel found at a panel's own
/// place is that panel.
pub proof fn law_at_own_fraction(t: PanelNode, id: PanelId, axis: Axis)
    requires
        splits_along(t, axis),
        t.has(id),
    ensures
        t.fraction(id, axis) matches Some(f) && t.at_fraction(f, axis) == id,
    decreases t,
{
    law_fraction_iff_has(t, id, axis);
    match t {
        PanelNode::Leaf(_) => {},
        PanelNode::Horizontal(a, b) => {
            if a.has(id) {
                law_at_own_fraction(*a, id, axis);
                let f = a.fraction(id, axis).unwrap();
                assert(doubled(seq![false] + f) =~= f);
            } else {
                law_at_own_fraction(*b, id, axis);
                let f = b.fraction(id, axis).unwrap();
                assert(doubled(seq![true] + f) =~= f);
            }
        },
        PanelNode::Vertical(a, b) => {
            if a.has(id) {
                law_at_own_fraction(*a, id, axis);
                let f = a.fraction(id, axis).unwrap();
                assert(doubled(seq![false] + f) =~= f);
            } else {
                law_at_own_fraction(*b, id, axis);
                let f = b.fraction(id, axis).unwrap();
                assert(doubled(seq![true] + f) =~= f);
            }
        },
    }
}

/// Moving from a panel lands on another panel of the tree, and nothing is
/// found from a panel that is not there.
pub proof fn law_neighbour_in_tree(t: PanelNode, target: PanelId, dir: NavDirection)
    requires
        t.wf(),
    ensures
        t.neighbour(target, dir) matches Some(n) ==> t.has(n) && t.has(target) && n != target,
        !t.has(target) ==> t.neighbour(target, dir) is None,
    decreases t,
{
    match t {
        PanelNode::Leaf(_) => {},
        PanelNode::Horizontal(a, b) => {
            lemma_wf_sides(*a, *b);
            law_neighbour_in_tree(*a, target, dir);
            law_neighbour_in_tree(*b, target, dir);
            if let Some(f) = a.fraction(target, Axis::Vertical) {
                law_at_fraction_in_tree(*b, f, Axis::Vertical);
            }
            if let Some(f) = b.fraction(target, Axis::Vertical) {
                law_at_fraction_in_tree(*a, f, Axis::Vertical);
            }
            law_fraction_iff_has(*a, target, Axis::Vertical);
            law_fraction_iff_has(*b, target, Axis::Vertical);
        },
        PanelNode::Vertical(a, b) => {
            lemma_wf_sides(*a, *b);
            law_neighbour_in_tree(*a, target, dir);
            law_neighbour_in_tree(*b, target, dir);
            if let Some(f) = a.fraction(target, Axis::Horizontal) {
                law_at_fraction_in_tree(*b, f, Axis::Horizontal);
            }
            if let Some(f) = b.fraction(target, Axis::Horizontal) {
                law_at_fraction_in_tree(*a, f, Axis::Horizontal);
            }
            law_fraction_iff_has(*a, target, Axis::Horizontal);
            law_fraction_iff_has(*b, target, Axis::Horizontal);
        },
    }
}

/// Replacing or removing a panel that is not there changes nothing.
pub proof fn law_absent_unchanged(t: PanelNode, target: PanelId, replacement: PanelNode)
    requires
        !t.has(target),
    ensures
        t.replaced(target, replacement) == t,
        t.removed(target) == Some(t),
    decreases t,
{
    match t {
        PanelNode::Leaf(_) => {},
        PanelNode::Horizontal(a, b) => {
            law_absent_unchanged(*a, target, replacement);
            law_absent_unchanged(*b, target, replacement);
        },
        PanelNode::Vertical(a, b) => {
            law_absent_unchanged(*a, target, replacement);
            law_absent_unchanged(*b, target, replacement);
        },
    }
}

/// Replacing the panel at leaf position `i` splices the replacement's
/// panels in its place.
pub proof fn law_replace_leaves(t: PanelNode, target: PanelId, replacement: PanelNode, i: int)
    requires
        t.wf(),
        0 <= i < t.spec_leaves().len(),
        t.spec_leaves()[i] == target,
    ensures
        t.replaced(target, replacement).spec_leaves() == t.spec_leaves().take(i)
            + replacement.spec_leaves() + t.spec_leaves().skip(i + 1),
    decreases node_count(t),
{
    let l = t.spec_leaves();
    match t {
        PanelNode::Leaf(_) => {
            assert(l.take(i) =~= Seq::<PanelId>::empty());
            assert(l.skip(i + 1) =~= Seq::<PanelId>::empty());
            assert(replacement.spec_leaves() =~= l.take(i) + replacement.spec_leaves() + l.skip(i + 1));
        },
        PanelNode::Horizontal(a, b) => {
            lemma_replace_split(*a, *b, target, replacement, i);
        },
        PanelNode::Vertical(a, b) => {
            lemma_replace_split(*a, *b, target, replacement, i);
        },
    }
}

proof fn lemma_replace_split(a: PanelNode, b: PanelNode, target: PanelId, replacement: PanelNode, i: int)
    requires
        (a.spec_leaves() + b.spec_leaves()).no_duplicates(),
        0 <= i < (a.spec_leaves() + b.spec_leaves()).len(),
        (a.spec_leaves() + b.spec_leaves())[i] == target,
    ensures
        a.replaced(target, replacement).spec_leaves() + b.replaced(target, replacement).spec_leaves()
            == (a.spec_leaves() + b.spec_leaves()).take(i) + replacement.spec_leaves()
            + (a.spec_leaves() + b.spec_leaves()).skip(i + 1),
    decreases node_count(a) + node_count(b),
{
    lemma_node_count_positive(a);
    lemma_node_count_positive(b);
    let la = a.spec_leaves();
    let lb = b.spec_leaves();
    let l = la + lb;
    lemma_wf_sides(a, b);
    if i < la.len() {
        assert(la[i] == target);
        law_has_iff_leaf(a, target);
        law_has_iff_leaf(b, target);
        law_absent_unchanged(b, target, replacement);
        law_replace_leaves(a, target, replacement, i);
        assert(l.take(i) =~= la.take(i));
        assert(l.skip(i + 1) =~= la.skip(i + 1) + lb);
        assert(la.take(i) + replacement.spec_leaves() + la.skip(i + 1) + lb =~= l.take(i)
            + replacement.spec_leaves() + l.skip(i + 1));
    } else {
        let j = i - la.len();
        assert(lb[j] == target);
        law_has_iff_leaf(a, target);
        law_has_iff_leaf(b, target);
        law_absent_unchanged(a, target, replacement);
        law_replace_leaves(b, target, replacement, j);
        assert(l.take(i) =~= la + lb.take(j));
        assert(l.skip(i + 1) =~= lb.skip(j + 1));
        assert(la + (lb.take(j) + replacement.spec_leaves() + lb.skip(j + 1)) =~= l.take(i)
            + replacement.spec_leaves() + l.skip(i + 1));
    }
}

/// Closing the panel at leaf position `i` of a split tree leaves the other
/// panels, in order, each once.
pub proof fn law_remove_leaves(t: PanelNode, target: PanelId, i: int)
    requires
        t.wf(),
        0 <= i < t.spec_leaves().len(),
        t.spec_leaves()[i] == target,
        t != PanelNode::Leaf(target),
    ensures
        t.removed(target) matches Some(r) && r.spec_leaves() == t.spec_leaves().remove(i) && r.wf(),
    decreases node_count(t),
{
    match t {
        PanelNode::Leaf(_) => {},
        PanelNode::Horizontal(a, b) => {
            lemma_remove_split(*a, *b, target, i);
        },
        PanelNode::Vertical(a, b) => {
            lemma_remove_split(*a, *b, target, i);
        },
    }
}

proof fn lemma_remove_split(a: PanelNode, b: PanelNode, target: PanelId, i: int)
    requires
        (a.spec_leaves() + b.spec_leaves()).no_duplicates(),
        0 <= i < (a.spec_leaves() + b.spec_leaves()).len(),
        (a.spec_leaves() + b.spec_leaves())[i] == target,
    ensures
        ({
            let l = a.spec_leaves() + b.spec_leaves();
            &&& (if a.has(target) {
                if a == PanelNode::Leaf(target) {
                    b.spec_leaves() == l.remove(i) && b.wf()
                } else {
                    a.removed(target) matches Some(na) && (na.spec_leaves() + b.spec_leaves())
                        == l.remove(i) && (na.spec_leaves() + b.spec_leaves()).no_duplicates()
                }
            } else {
                if b == PanelNode::Leaf(target) {
                    a.spec_leaves() == l.remove(i) && a.wf()
                } else {
                    b.removed(target) matches Some(nb) && (a.spec_leaves() + nb.spec_leaves())
                        == l.remove(i) && (a.spec_leaves() + nb.spec_leaves()).no_duplicates()
                }
            })
        }),
    decreases node_count(a) + node_count(b),
{
    lemma_node_count_positive(a);
    lemma_node_count_positive(b);
    let la = a.spec_leaves();
    let lb = b.spec_leaves();
    let l = la + lb;
    lemma_wf_sides(a, b);
    law_has_iff_leaf(a, target);
    law_has_iff_leaf(b, target);
    if i < la.len() {
        assert(la[i] == target);
        assert(a.has(target));
        if a == PanelNode::Leaf(target) {
            assert(l.remove(i) =~= lb);
        } else {
            law_remove_leaves(a, target, i);
            let na = a.removed(target).unwrap();
            assert(na.spec_leaves() + lb =~= l.remove(i));
            lemma_no_dup_sublist(l, i, na.spec_leaves() + lb);
        }
    } else {
        let j = i - la.len();
        assert(lb[j] == target);
        assert(!a.has(target));
        if b == PanelNode::Leaf(target) {
            assert(l.remove(i) =~= la);
        } else {
            law_remove_leaves(b, target, j);
            let nb = b.removed(target).unwrap();
            assert(la + nb.spec_leaves() =~= l.remove(i));
            lemma_no_dup_sublist(l, i, la + nb.spec_leaves());
        }
    }
}

proof fn lemma_no_dup_sublist(l: Seq<PanelId>, i: int, r: Seq<PanelId>)
    requires
        l.no_duplicates(),
        0 <= i < l.len(),
        r == l.remove(i),
    ensures
        r.no_duplicates(),
{
    assert forall|x: int, y: int| 0 <= x < r.len() && 0 <= y < r.len() && x != y implies r[x] != r[y] by {
        let ox = if x < i { x } else { x + 1 };
        let oy = if y < i { y } else { y + 1 };
        assert(r[x] == l[ox]);
        assert(r[y] == l[oy]);
    }
}

/// Focus moves within the side of a split that holds the panel whenever
/// that side has a neighbour in the direction: the panel directly beyond it
/// inside its own side comes before anything across the split.
pub proof fn law_neighbour_prefers_own_side(a: PanelNode, b: PanelNode, target: PanelId, dir: NavDirection)
    requires
        a.has(target) != b.has(target),
    ensures
        ({
            let inner = if a.has(target) {
                a.neighbour(target, dir)
            } else {
                b.neighbour(target, dir)
            };
            inner is Some ==> {
                &&& PanelNode::Horizontal(Box::new(a), Box::new(b)).neighbour(target, dir) == inner
                &&& PanelNode::Vertical(Box::new(a), Box::new(b)).neighbour(target, dir) == inner
            }
        }),
{
}

/// When its own side has no neighbour, focus crosses a split only in the
/// split's direction: right from the left side (or left from the right
/// side) of side-by-side panels, down from the top (or up from the bottom)
/// of stacked ones, landing on the panel of the other side at the same
/// height (or the same left edge). Away from the other side, or across the
/// split's other direction, it finds nothing.
pub proof fn law_neighbour_crosses_split(a: PanelNode, b: PanelNode, target: PanelId, dir: NavDirection)
    requires
        a.has(target) != b.has(target),
        (if a.has(target) {
            a.neighbour(target, dir)
        } else {
            b.neighbour(target, dir)
        }) is None,
    ensures
        ({
            let h = PanelNode::Horizontal(Box::new(a), Box::new(b)).neighbour(target, dir);
            let v = PanelNode::Vertical(Box::new(a), Box::new(b)).neighbour(target, dir);
            &&& (a.has(target) && dir == NavDirection::Right) ==> (h matches Some(n) && b.has(n)
                && h == Some(b.at_fraction(a.fraction(target, Axis::Vertical).unwrap(), Axis::Vertical)))
            &&& (b.has(target) && dir == NavDirection::Left) ==> (h matches Some(n) && a.has(n)
                && h == Some(a.at_fraction(b.fraction(target, Axis::Vertical).unwrap(), Axis::Vertical)))
            &&& (a.has(target) && dir == NavDirection::Left) ==> h is None
            &&& (b.has(target) && dir == NavDirection::Right) ==> h is None
            &&& (dir == NavDirection::Up || dir == NavDirection::Down) ==> h is None
            &&& (a.has(target) && dir == NavDirection::Down) ==> (v matches Some(n) && b.has(n)
                && v == Some(b.at_fraction(a.fraction(target, Axis::Horizontal).unwrap(), Axis::Horizontal)))
            &&& (b.has(target) && dir == NavDirection::Up) ==> (v matches Some(n) && a.has(n)
                && v == Some(a.at_fraction(b.fraction(target, Axis::Horizontal).unwrap(), Axis::Horizontal)))
            &&& (a.has(target) && dir == NavDirection::Up) ==> v is None
            &&& (b.has(target) && dir == NavDirection::Down) ==> v is None
            &&& (dir == NavDirection::Left || dir == NavDirection::Right) ==> v is None
        }),
{
    law_fraction_iff_has(a, target, Axis::Vertical);
    law_fraction_iff_has(b, target, Axis::Vertical);
    law_fraction_iff_has(a, target, Axis::Horizontal);
    law_fraction_iff_has(b, target, Axis::Horizontal);
    if a.has(target) {
        let fv = a.fraction(target, Axis::Vertical).unwrap();
        let fh = a.fraction(target, Axis::Horizontal).unwrap();
        law_at_fraction_in_tree(b, fv, Axis::Vertical);
        law_at_fraction_in_tree(b, fh, Axis::Horizontal);
    } else {
        let fv = b.fraction(target, Axis::Vertical).unwrap();
        let fh = b.fraction(target, Axis::Horizontal).unwrap();
        law_at_fraction_in_tree(a, fv, Axis::Vertical);
        law_at_fraction_in_tree(a, fh, Axis::Horizontal);
    }
}

} // verus!
