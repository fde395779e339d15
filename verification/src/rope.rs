//! The rope tree itself: a binary tree whose leaves hold bounded runs of
//! lines and whose internal nodes cache subtree line counts for O(log n)
//! index routing.

use vstd::prelude::*;

verus! {

/// Upper bound on the number of lines a single leaf may hold.
pub const MAX_LEAF_SIZE: usize = 64;

/// A node of the rope: either a leaf holding a bounded run of lines, or an
/// internal node owning two children together with cached line counts.
pub enum RopeNode<Line> {
    Leaf(Vec<Line>),
    Internal {
        left: Box<RopeNode<Line>>,
        right: Box<RopeNode<Line>>,
        /// Number of lines stored in the left subtree.
        left_count: usize,
        /// Total number of lines stored in this subtree.
        count: usize,
    },
}

impl<Line> RopeNode<Line> {
    /// The ordered sequence of lines this subtree stores (in-order traversal).
    pub open spec fn items(self) -> Seq<Line>
        decreases self,
    {
        match self {
            RopeNode::Leaf(lines) => lines@,
            RopeNode::Internal { left, right, .. } => left.items() + right.items(),
        }
    }

    /// Structural well-formedness: cached counts are correct and every leaf
    /// respects the size bound.
    pub open spec fn wf(self) -> bool
        decreases self,
    {
        match self {
            RopeNode::Leaf(lines) => lines@.len() <= MAX_LEAF_SIZE,
            RopeNode::Internal { left, right, left_count, count } => {
                &&& left.wf()
                &&& right.wf()
                &&& left_count == left.items().len()
                &&& count == left.items().len() + right.items().len()
            }
        }
    }

    /// An internal node whose two children are both leaves.
    pub open spec fn leaf_pair(self) -> bool {
        match self {
            RopeNode::Internal { left, right, .. } => *left is Leaf && *right is Leaf,
            RopeNode::Leaf(_) => false,
        }
    }

    /// Weight balance: at every internal node, neither subtree holds more
    /// than twice the lines of its sibling, plus one.
    pub open spec fn balanced(self) -> bool
        decreases self,
    {
        match self {
            RopeNode::Leaf(_) => true,
            RopeNode::Internal { left, right, .. } => {
                &&& left.balanced()
                &&& right.balanced()
                &&& left.items().len() <= 2 * right.items().len() + 1
                &&& right.items().len() <= 2 * left.items().len() + 1
            }
        }
    }

    /// Total number of lines in this subtree. O(1) thanks to the cached count.
    pub fn count(&self) -> (n: usize)
        requires
            self.wf(),
        ensures
            n == self.items().len(),
    {
        match self {
            RopeNode::Leaf(lines) => lines.len(),
            RopeNode::Internal { count, .. } => *count,
        }
    }

    /// Assemble a balanced tree from a full run of lines by recursive
    /// midpoint splitting. Shared by the builder and by leaf splitting.
    pub fn from_lines(lines: Vec<Line>) -> (node: Self)
        ensures
            node.wf(),
            node.balanced(),
            node.items() == lines@,
        decreases lines@.len(),
    {
        if lines.len() <= MAX_LEAF_SIZE {
            RopeNode::Leaf(lines)
        } else {
            let mut lines = lines;
            let mid = lines.len() / 2;
            let right_lines = lines.split_off(mid);
            let left = Box::new(Self::from_lines(lines));
            let right = Box::new(Self::from_lines(right_lines));
            let lc = left.count();
            let rc = right.count();
            RopeNode::Internal { left, right, left_count: lc, count: lc + rc }
        }
    }

    /// The line at the given 0-based index within this subtree.
    pub fn get_line(&self, index: usize) -> (line: &Line)
        requires
            self.wf(),
            index < self.items().len(),
        ensures
            *line == self.items()[index as int],
        decreases self,
    {
        match self {
            RopeNode::Leaf(lines) => &lines[index],
            RopeNode::Internal { left, right, left_count, .. } => {
                if index < *left_count {
                    left.get_line(index)
                } else {
                    right.get_line(index - *left_count)
                }
            }
        }
    }

    /// Mutable access to the line at the given 0-based index. The tree shape
    /// and counts are untouched; only the selected line may change.
    pub fn get_line_mut(&mut self, index: usize) -> (line: &mut Line)
        requires
            old(self).wf(),
            index < old(self).items().len(),
        ensures
            *line == old(self).items()[index as int],
            final(self).items() == old(self).items().update(index as int, *final(line)),
            final(self).wf(),
        decreases *old(self),
    {
        match self {
            RopeNode::Leaf(lines) => &mut lines[index],
            RopeNode::Internal { left, right, left_count, .. } => {
                if index < *left_count {
                    left.get_line_mut(index)
                } else {
                    right.get_line_mut(index - *left_count)
                }
            }
        }
    }

    /// Insert `line` so that it becomes the line at `index`; lines at or
    /// after `index` shift one position to the right.
    pub fn insert_line(&mut self, index: usize, line: Line)
        requires
            old(self).wf(),
            index <= old(self).items().len(),
            old(self).items().len() < usize::MAX,
        ensures
            final(self).wf(),
            final(self).items() == old(self).items().insert(index as int, line),
            final(self).items().len() == old(self).items().len() + 1,
            *old(self) is Leaf ==> final(self).balanced(),
    {
        let mut taken = RopeNode::Leaf(Vec::new());
        core::mem::swap(self, &mut taken);
        let inserted = taken.with_inserted(index, line);
        *self = inserted;
    }

    /// Remove and return the line at `index`; lines after it shift one
    /// position to the left. A node whose two leaf children fit in one leaf
    /// after the removal collapses into that single merged leaf.
    pub fn delete_line(&mut self, index: usize) -> (line: Line)
        requires
            old(self).wf(),
            index < old(self).items().len(),
        ensures
            final(self).wf(),
            final(self).items() == old(self).items().remove(index as int),
            final(self).items().len() == old(self).items().len() - 1,
            line == old(self).items()[index as int],
            old(self).leaf_pair() && old(self).items().len() <= MAX_LEAF_SIZE + 1
                ==> *final(self) is Leaf,
    {
        let mut taken = RopeNode::Leaf(Vec::new());
        core::mem::swap(self, &mut taken);
        let (deleted, line) = taken.with_deleted(index);
        *self = deleted;
        line
    }

    fn with_inserted(self, index: usize, line: Line) -> (r: Self)
        requires
            self.wf(),
            index <= self.items().len(),
            self.items().len() < usize::MAX,
        ensures
            r.wf(),
            r.items() == self.items().insert(index as int, line),
            self is Leaf ==> r.balanced(),
        decreases self,
    {
        match self {
            RopeNode::Leaf(mut lines) => {
                lines.insert(index, line);
                if lines.len() > MAX_LEAF_SIZE {
                    Self::from_lines(lines)
                } else {
                    RopeNode::Leaf(lines)
                }
            }
            RopeNode::Internal { left, right, left_count, count } => {
                if index <= left_count {
                    let new_left = Box::new((*left).with_inserted(index, line));
                    let node = RopeNode::Internal {
                        left: new_left,
                        right,
                        left_count: left_count + 1,
                        count: count + 1,
                    };
                    node.rebalanced()
                } else {
                    let new_right = Box::new((*right).with_inserted(index - left_count, line));
                    let node = RopeNode::Internal {
                        left,
                        right: new_right,
                        left_count,
                        count: count + 1,
                    };
                    node.rebalanced()
                }
            }
        }
    }

    fn with_deleted(self, index: usize) -> (r: (Self, Line))
        requires
            self.wf(),
            index < self.items().len(),
        ensures
            r.0.wf(),
            r.0.items() == self.items().remove(index as int),
            r.1 == self.items()[index as int],
            self is Leaf ==> r.0 is Leaf,
            self.leaf_pair() && self.items().len() <= MAX_LEAF_SIZE + 1 ==> r.0 is Leaf,
        decreases self,
    {
        match self {
            RopeNode::Leaf(mut lines) => {
                let line = lines.remove(index);
                (RopeNode::Leaf(lines), line)
            }
            RopeNode::Internal { left, right, left_count, count } => {
                if index < left_count {
                    let (new_left, line) = (*left).with_deleted(index);
                    let node = RopeNode::Internal {
                        left: Box::new(new_left),
                        right,
                        left_count: left_count - 1,
                        count: count - 1,
                    };
                    (node.merged_children().rebalanced(), line)
                } else {
                    let (new_right, line) = (*right).with_deleted(index - left_count);
                    let node = RopeNode::Internal {
                        left,
                        right: Box::new(new_right),
                        left_count,
                        count: count - 1,
                    };
                    (node.merged_children().rebalanced(), line)
                }
            }
        }
    }

    /// If both children are leaves and their lines fit in one leaf, collapse
    /// them into a single merged leaf; otherwise leave the node as it is.
    fn merged_children(self) -> (r: Self)
        requires
            self.wf(),
        ensures
            r.wf(),
            r.items() == self.items(),
            self.leaf_pair() && self.items().len() <= MAX_LEAF_SIZE ==> r is Leaf,
    {
        match self {
            RopeNode::Internal { left, right, left_count, count } => {
                match (*left, *right) {
                    (RopeNode::Leaf(mut l_lines), RopeNode::Leaf(mut r_lines)) => {
                        if l_lines.len() + r_lines.len() <= MAX_LEAF_SIZE {
                            l_lines.append(&mut r_lines);
                            RopeNode::Leaf(l_lines)
                        } else {
                            RopeNode::Internal {
                                left: Box::new(RopeNode::Leaf(l_lines)),
                                right: Box::new(RopeNode::Leaf(r_lines)),
                                left_count,
                                count,
                            }
                        }
                    }
                    (l_node, r_node) => {
                        RopeNode::Internal {
                            left: Box::new(l_node),
                            right: Box::new(r_node),
                            left_count,
                            count,
                        }
                    }
                }
            }
            leaf => leaf,
        }
    }

    /// Restore the weight balance locally with a single rotation when one
    /// subtree has grown beyond twice the size of its sibling, plus one.
    fn rebalanced(self) -> (r: Self)
        requires
            self.wf(),
        ensures
            r.wf(),
            r.items() == self.items(),
            self is Leaf ==> r is Leaf,
    {
        let too_heavy_left: bool;
        let too_heavy_right: bool;
        match &self {
            RopeNode::Internal { left, right, .. } => {
                let lc: usize = left.count();
                let rc: usize = right.count();
                too_heavy_left = (lc as u128) > 2 * (rc as u128) + 1;
                too_heavy_right = (rc as u128) > 2 * (lc as u128) + 1;
            }
            RopeNode::Leaf(_) => {
                too_heavy_left = false;
                too_heavy_right = false;
            }
        }
        if too_heavy_left {
            self.rotated_right()
        } else if too_heavy_right {
            self.rotated_left()
        } else {
            self
        }
    }

    /// Rotate left: promote the right child; its left subtree becomes this
    /// node's new left child's right subtree. A node whose right child is a
    /// leaf is returned unchanged.
    fn rotated_left(self) -> (r: Self)
        requires
            self.wf(),
        ensures
            r.wf(),
            r.items() == self.items(),
    {
        proof {
            reveal_with_fuel(RopeNode::wf, 3);
            reveal_with_fuel(RopeNode::items, 3);
        }
        let ghost orig = self;
        match self {
            RopeNode::Internal { left, right, left_count, count } => {
                match *right {
                    RopeNode::Internal { left: r_left, right: r_right, .. } => {
                        let r_lc = r_left.count();
                        let new_left = RopeNode::Internal {
                            left,
                            right: r_left,
                            left_count,
                            count: left_count + r_lc,
                        };
                        let result = RopeNode::Internal {
                            left: Box::new(new_left),
                            right: r_right,
                            left_count: left_count + r_lc,
                            count,
                        };
                        proof {
                            assert(result.items() =~= orig.items());
                        }
                        result
                    }
                    other => {
                        RopeNode::Internal { left, right: Box::new(other), left_count, count }
                    }
                }
            }
            leaf => leaf,
        }
    }

    /// Rotate right: promote the left child; its right subtree becomes this
    /// node's new right child's left subtree. A node whose left child is a
    /// leaf is returned unchanged.
    fn rotated_right(self) -> (r: Self)
        requires
            self.wf(),
        ensures
            r.wf(),
            r.items() == self.items(),
    {
        proof {
            reveal_with_fuel(RopeNode::wf, 3);
            reveal_with_fuel(RopeNode::items, 3);
        }
        let ghost orig = self;
        match self {
            RopeNode::Internal { left, right, left_count, count } => {
                match *left {
                    RopeNode::Internal { left: l_left, right: l_right, left_count: l_lc, .. } => {
                        let l_rc = l_right.count();
                        let r_c = right.count();
                        let new_right = RopeNode::Internal {
                            left: l_right,
                            right,
                            left_count: l_rc,
                            count: l_rc + r_c,
                        };
                        let result = RopeNode::Internal {
                            left: l_left,
                            right: Box::new(new_right),
                            left_count: l_lc,
                            count,
                        };
                        proof {
                            assert(result.items() =~= orig.items());
                        }
                        result
                    }
                    other => {
                        RopeNode::Internal { left: Box::new(other), right, left_count, count }
                    }
                }
            }
            leaf => leaf,
        }
    }

    /// Whether this node is a leaf. After a split the root is internal, so a
    /// caller can observe that a split has happened.
    pub fn is_leaf(&self) -> (b: bool)
        ensures
            b == (*self is Leaf),
    {
        match self {
            RopeNode::Leaf(_) => true,
            RopeNode::Internal { .. } => false,
        }
    }

    /// Recompute subtree length and well-formedness from scratch, without
    /// trusting the cached counts. Returns the length paired with the verdict;
    /// the length is meaningful only when the verdict holds.
    fn len_and_wf(&self) -> (r: (usize, bool))
        ensures
            r.1 == self.wf(),
            r.1 ==> r.0 == self.items().len(),
        decreases self,
    {
        match self {
            RopeNode::Leaf(lines) => (lines.len(), lines.len() <= MAX_LEAF_SIZE),
            RopeNode::Internal { left, right, left_count, count } => {
                let (l_len, l_ok) = left.len_and_wf();
                let (r_len, r_ok) = right.len_and_wf();
                let ok = l_ok && r_ok && *left_count == l_len && l_len <= usize::MAX - r_len
                    && *count == l_len + r_len;
                (if ok { *count } else { 0 }, ok)
            }
        }
    }

    /// Check the structural invariant at run time: cached counts correct at
    /// every internal node, and no leaf beyond `MAX_LEAF_SIZE`.
    pub fn is_well_formed(&self) -> (b: bool)
        ensures
            b == self.wf(),
    {
        self.len_and_wf().1
    }

    /// Check the weight-balance invariant at run time, at every internal node.
    pub fn is_balanced(&self) -> (b: bool)
        requires
            self.wf(),
        ensures
            b == self.balanced(),
        decreases self,
    {
        match self {
            RopeNode::Leaf(_) => true,
            RopeNode::Internal { left, right, .. } => {
                let lc = left.count();
                let rc = right.count();
                let here = (lc as u128) <= 2 * (rc as u128) + 1 && (rc as u128) <= 2 * (lc
                    as u128) + 1;
                here && left.is_balanced() && right.is_balanced()
            }
        }
    }

    /// Build a traversal positioned to yield the lines from `index` on. An
    /// index past the end yields an empty traversal.
    pub fn from_index(&self, index: usize) -> (it: RopeLinesIterator<'_, Line>)
        requires
            self.wf(),
        ensures
            it.wf(),
            index <= self.items().len() ==> it.remaining() == self.items().skip(index as int),
            index > self.items().len() ==> it.remaining() == Seq::<Line>::empty(),
    {
        let mut stack: Vec<&RopeNode<Line>> = Vec::new();
        let mut cur = self;
        let mut idx = index;
        loop
            invariant
                cur.wf(),
                forall|i: int|
                    0 <= i < stack@.len() ==> (*#[trigger] stack@[i]).wf() && *stack@[i] is Internal,
                skip_clamped(cur.items(), idx as int) + RopeLinesIterator::suspended(stack@) == skip_clamped(
                    self.items(),
                    index as int,
                ),
            decreases tree_size(*cur),
        {
            match cur {
                RopeNode::Leaf(lines) => {
                    let pos = if idx <= lines.len() {
                        idx
                    } else {
                        lines.len()
                    };
                    proof {
                        assert(lines@.skip(pos as int) =~= skip_clamped(cur.items(), idx as int));
                    }
                    return RopeLinesIterator { stack, leaf: lines, pos };
                }
                RopeNode::Internal { left, right, left_count, .. } => {
                    if idx < *left_count {
                        let ghost old_stack = stack@;
                        proof {
                            assert(skip_clamped(left.items(), idx as int) + (right.items()
                                + RopeLinesIterator::suspended(old_stack)) =~= skip_clamped(
                                cur.items(),
                                idx as int,
                            ) + RopeLinesIterator::suspended(old_stack));
                        }
                        stack.push(cur);
                        proof {
                            assert(stack@.drop_last() =~= old_stack);
                            assert(stack@.last() == cur);
                        }
                        cur = left;
                    } else {
                        proof {
                            assert(skip_clamped(right.items(), idx as int - *left_count)
                                =~= skip_clamped(cur.items(), idx as int));
                        }
                        idx = idx - *left_count;
                        cur = right;
                    }
                }
            }
        }
    }

    /// A traversal over all lines, in index order.
    pub fn lines(&self) -> (it: RopeLinesIterator<'_, Line>)
        requires
            self.wf(),
        ensures
            it.wf(),
            it.remaining() == self.items(),
    {
        let it = self.from_index(0);
        proof {
            assert(self.items().skip(0) =~= self.items());
        }
        it
    }
}

impl<Line> Default for RopeNode<Line> {
    /// An empty rope: a leaf holding no lines.
    fn default() -> (node: Self)
        ensures
            node.wf(),
            node.balanced(),
            node.items() == Seq::<Line>::empty(),
    {
        RopeNode::Leaf(Vec::new())
    }
}

/// The lines of the right child, or nothing for a leaf.
spec fn right_items<Line>(node: RopeNode<Line>) -> Seq<Line> {
    match node {
        RopeNode::Internal { right, .. } => right.items(),
        RopeNode::Leaf(_) => Seq::empty(),
    }
}

/// Number of tree nodes in a subtree; a structural measure for traversal
/// termination.
spec fn tree_size<Line>(node: RopeNode<Line>) -> nat
    decreases node,
{
    match node {
        RopeNode::Leaf(_) => 1,
        RopeNode::Internal { left, right, .. } => 1 + tree_size(*left) + tree_size(*right),
    }
}

/// Node count of the right child, or zero for a leaf.
spec fn right_tree_size<Line>(node: RopeNode<Line>) -> nat {
    match node {
        RopeNode::Internal { right, .. } => tree_size(*right),
        RopeNode::Leaf(_) => 0,
    }
}

/// The first `i` elements of `s` dropped, or nothing when `i` lies past the
/// end.
spec fn skip_clamped<Line>(s: Seq<Line>, i: int) -> Seq<Line> {
    if 0 <= i <= s.len() {
        s.skip(i)
    } else if i > s.len() {
        Seq::empty()
    } else {
        s
    }
}

/// A lazy, forward-only traversal of a rope's lines. It keeps an explicit
/// stack of the internal ancestors whose right subtree is still unvisited,
/// plus a cursor into the current leaf.
pub struct RopeLinesIterator<'a, Line> {
    stack: Vec<&'a RopeNode<Line>>,
    leaf: &'a Vec<Line>,
    pos: usize,
}

impl<'a, Line> RopeLinesIterator<'a, Line> {
    /// Lines still to be yielded by the stacked ancestors: the right subtree
    /// of the deepest one first.
    spec fn suspended(stack: Seq<&'a RopeNode<Line>>) -> Seq<Line>
        decreases stack.len(),
    {
        if stack.len() == 0 {
            Seq::empty()
        } else {
            right_items(*stack.last()) + Self::suspended(stack.drop_last())
        }
    }

    /// Total node count of the right subtrees held by the stack; a measure
    /// for traversal termination.
    spec fn suspended_size(stack: Seq<&'a RopeNode<Line>>) -> nat
        decreases stack.len(),
    {
        if stack.len() == 0 {
            0
        } else {
            right_tree_size(*stack.last()) + Self::suspended_size(stack.drop_last())
        }
    }

    /// The lines this traversal has yet to yield, in order.
    pub closed spec fn remaining(self) -> Seq<Line> {
        self.leaf@.skip(self.pos as int) + Self::suspended(self.stack@)
    }

    /// The cursor lies within the current leaf and every stacked node is a
    /// well-formed internal node.
    pub closed spec fn wf(self) -> bool {
        &&& self.pos <= self.leaf@.len()
        &&& forall|i: int|
            0 <= i < self.stack@.len() ==> (*#[trigger] self.stack@[i]).wf() && *self.stack@[i]
                is Internal
    }

    /// Push the ancestors along the leftmost spine of `node` and position the
    /// cursor at the start of the spine's leaf.
    fn descend_leftmost(&mut self, node: &'a RopeNode<Line>)
        requires
            old(self).wf(),
            node.wf(),
        ensures
            final(self).wf(),
            final(self).remaining() == node.items() + Self::suspended(old(self).stack@),
            Self::suspended_size(final(self).stack@) + 1 <= Self::suspended_size(
                old(self).stack@,
            ) + tree_size(*node),
    {
        let mut cur = node;
        loop
            invariant
                cur.wf(),
                forall|i: int|
                    0 <= i < self.stack@.len() ==> (*#[trigger] self.stack@[i]).wf()
                        && *self.stack@[i] is Internal,
                cur.items() + Self::suspended(self.stack@) == node.items() + Self::suspended(
                    old(self).stack@,
                ),
                Self::suspended_size(self.stack@) + tree_size(*cur) <= Self::suspended_size(
                    old(self).stack@,
                ) + tree_size(*node),
            decreases tree_size(*cur),
        {
            match cur {
                RopeNode::Leaf(lines) => {
                    self.leaf = lines;
                    self.pos = 0;
                    proof {
                        assert(lines@.skip(0) =~= lines@);
                    }
                    return ;
                }
                RopeNode::Internal { left, .. } => {
                    let ghost old_stack = self.stack@;
                    proof {
                        assert(left.items() + (right_items(*cur) + Self::suspended(old_stack))
                            =~= cur.items() + Self::suspended(old_stack));
                    }
                    self.stack.push(cur);
                    proof {
                        assert(self.stack@.drop_last() =~= old_stack);
                        assert(self.stack@.last() == cur);
                    }
                    cur = left;
                }
            }
        }
    }

    /// Yield the next line, or nothing once the traversal is exhausted.
    pub fn next(&mut self) -> (r: Option<&'a Line>)
        requires
            old(self).wf(),
        ensures
            final(self).wf(),
            match r {
                Some(line) => {
                    &&& old(self).remaining().len() > 0
                    &&& *line == old(self).remaining()[0]
                    &&& final(self).remaining() == old(self).remaining().drop_first()
                },
                None => {
                    &&& old(self).remaining().len() == 0
                    &&& final(self).remaining().len() == 0
                },
            },
    {
        loop
            invariant
                self.wf(),
                self.remaining() == old(self).remaining(),
            decreases Self::suspended_size(self.stack@),
        {
            if self.pos < self.leaf.len() {
                let line = &self.leaf[self.pos];
                proof {
                    assert(self.leaf@.skip(self.pos + 1) + Self::suspended(self.stack@) =~= (
                    self.leaf@.skip(self.pos as int) + Self::suspended(self.stack@)).drop_first());
                }
                self.pos = self.pos + 1;
                return Some(line);
            }
            proof {
                assert(self.leaf@.skip(self.pos as int) =~= Seq::<Line>::empty());
            }
            let popped = self.stack.pop();
            match popped {
                None => {
                    return None;
                }
                Some(node) => {
                    proof {
                        assert(old(self).remaining() =~= right_items(*node) + Self::suspended(
                            self.stack@,
                        ));
                    }
                    match node {
                        RopeNode::Internal { right, .. } => {
                            self.descend_leftmost(right);
                        }
                        RopeNode::Leaf(_) => {
                            proof {
                                assert(false);
                            }
                        }
                    }
                }
            }
        }
    }
}

/// Bulk constructor: accumulates a stream of lines into leaf-sized batches
/// and assembles a balanced tree in one bottom-up pairing pass, avoiding
/// per-insert rebalancing cost.
pub struct RopeBuilder<Line> {
    leaf_buffer: Vec<Line>,
    nodes: Vec<RopeNode<Line>>,
}

impl<Line> RopeBuilder<Line> {
    /// The lines of a run of completed subtrees, in order.
    spec fn nodes_items(nodes: Seq<RopeNode<Line>>) -> Seq<Line>
        decreases nodes.len(),
    {
        if nodes.len() == 0 {
            Seq::empty()
        } else {
            nodes.first().items() + Self::nodes_items(nodes.drop_first())
        }
    }

    /// All lines inserted so far, in order.
    pub closed spec fn items(self) -> Seq<Line> {
        Self::nodes_items(self.nodes@) + self.leaf_buffer@
    }

    /// The pending buffer has room left, every completed subtree is a
    /// well-formed non-empty tree, and the total still fits a `usize`.
    pub closed spec fn wf(self) -> bool {
        &&& self.leaf_buffer@.len() < MAX_LEAF_SIZE
        &&& forall|i: int|
            0 <= i < self.nodes@.len() ==> (#[trigger] self.nodes@[i]).wf()
                && self.nodes@[i].items().len() > 0
        &&& self.items().len() <= usize::MAX
    }

    /// A builder with no lines inserted yet.
    pub fn new() -> (builder: Self)
        ensures
            builder.wf(),
            builder.items() == Seq::<Line>::empty(),
    {
        RopeBuilder { leaf_buffer: Vec::new(), nodes: Vec::new() }
    }

    /// Append a line; once the pending buffer reaches `MAX_LEAF_SIZE` it is
    /// frozen into a completed leaf.
    pub fn insert(&mut self, line: Line)
        requires
            old(self).wf(),
            old(self).items().len() < usize::MAX,
        ensures
            final(self).wf(),
            final(self).items() == old(self).items().push(line),
    {
        proof {
            assert(Self::nodes_items(self.nodes@) + self.leaf_buffer@.push(line) =~= (
            Self::nodes_items(self.nodes@) + self.leaf_buffer@).push(line));
        }
        self.leaf_buffer.push(line);
        if self.leaf_buffer.len() >= MAX_LEAF_SIZE {
            self.flush_leaf();
        }
    }

    /// Freeze the pending buffer, if non-empty, into a completed leaf.
    fn flush_leaf(&mut self)
        requires
            old(self).leaf_buffer@.len() <= MAX_LEAF_SIZE,
            forall|i: int|
                0 <= i < old(self).nodes@.len() ==> (#[trigger] old(self).nodes@[i]).wf()
                    && old(self).nodes@[i].items().len() > 0,
            old(self).items().len() <= usize::MAX,
        ensures
            final(self).wf(),
            final(self).items() == old(self).items(),
            final(self).leaf_buffer@.len() == 0,
    {
        if !self.leaf_buffer.is_empty() {
            let mut tmp: Vec<Line> = Vec::new();
            core::mem::swap(&mut self.leaf_buffer, &mut tmp);
            let ghost old_nodes = self.nodes@;
            self.nodes.push(RopeNode::Leaf(tmp));
            proof {
                Self::lemma_nodes_items_push(old_nodes, RopeNode::Leaf(tmp));
                assert(Self::nodes_items(self.nodes@) + self.leaf_buffer@ =~= Self::nodes_items(
                    old_nodes,
                ) + tmp@);
            }
        }
    }

    /// Flush the remaining partial buffer and pair adjacent subtrees
    /// bottom-up until one tree remains. Yields nothing when no line was
    /// ever inserted.
    pub fn build(self) -> (r: Option<RopeNode<Line>>)
        requires
            self.wf(),
        ensures
            match r {
                Option::None => self.items().len() == 0,
                Option::Some(node) => {
                    &&& node.wf()
                    &&& node.items() == self.items()
                    &&& self.items().len() > 0
                },
            },
    {
        let mut this = self;
        this.flush_leaf();
        if this.nodes.is_empty() {
            proof {
                assert(this.items() =~= Seq::<Line>::empty());
            }
            None
        } else {
            proof {
                assert(this.items() =~= Self::nodes_items(this.nodes@));
            }
            Some(Self::build_balanced(this.nodes))
        }
    }

    /// Repeatedly pair adjacent subtrees into internal nodes, carrying an
    /// unpaired trailing tree forward, until exactly one tree remains.
    fn build_balanced(nodes: Vec<RopeNode<Line>>) -> (node: RopeNode<Line>)
        requires
            nodes@.len() > 0,
            forall|i: int| 0 <= i < nodes@.len() ==> (#[trigger] nodes@[i]).wf(),
            Self::nodes_items(nodes@).len() <= usize::MAX,
        ensures
            node.wf(),
            node.items() == Self::nodes_items(nodes@),
    {
        let ghost orig_items = Self::nodes_items(nodes@);
        let mut nodes = nodes;
        while nodes.len() > 1
            invariant
                nodes@.len() >= 1,
                forall|i: int| 0 <= i < nodes@.len() ==> (#[trigger] nodes@[i]).wf(),
                Self::nodes_items(nodes@) == orig_items,
                orig_items.len() <= usize::MAX,
            decreases nodes@.len(),
        {
            let ghost level_start = nodes@;
            let mut next_level: Vec<RopeNode<Line>> = Vec::new();
            while nodes.len() >= 2
                invariant
                    forall|i: int| 0 <= i < nodes@.len() ==> (#[trigger] nodes@[i]).wf(),
                    forall|i: int|
                        0 <= i < next_level@.len() ==> (#[trigger] next_level@[i]).wf(),
                    Self::nodes_items(next_level@) + Self::nodes_items(nodes@)
                        == Self::nodes_items(level_start),
                    2 * next_level@.len() + nodes@.len() == level_start.len(),
                    Self::nodes_items(level_start) == orig_items,
                    orig_items.len() <= usize::MAX,
                decreases nodes@.len(),
            {
                let ghost before = nodes@;
                let a = nodes.remove(0);
                proof {
                    assert(before.remove(0) =~= before.drop_first());
                }
                let ghost mid = nodes@;
                let b = nodes.remove(0);
                proof {
                    assert(mid.remove(0) =~= mid.drop_first());
                    Self::lemma_nodes_items_first(before);
                    Self::lemma_nodes_items_first(mid);
                    assert(Self::nodes_items(before) == a.items() + (b.items()
                        + Self::nodes_items(nodes@)));
                }
                let lc = a.count();
                let rc = b.count();
                let combined = RopeNode::Internal {
                    left: Box::new(a),
                    right: Box::new(b),
                    left_count: lc,
                    count: lc + rc,
                };
                let ghost next_before = next_level@;
                next_level.push(combined);
                proof {
                    Self::lemma_nodes_items_push(next_before, combined);
                    assert((Self::nodes_items(next_before) + (a.items() + b.items()))
                        + Self::nodes_items(nodes@) =~= Self::nodes_items(next_before) + (
                    a.items() + (b.items() + Self::nodes_items(nodes@))));
                }
            }
            if nodes.len() == 1 {
                let ghost before = nodes@;
                let trailing = nodes.remove(0);
                proof {
                    assert(before.remove(0) =~= before.drop_first());
                    Self::lemma_nodes_items_single(before);
                }
                let ghost next_before = next_level@;
                next_level.push(trailing);
                proof {
                    Self::lemma_nodes_items_push(next_before, trailing);
                }
            } else {
                proof {
                    Self::lemma_nodes_items_empty(nodes@);
                    assert(Self::nodes_items(next_level@) + Seq::<Line>::empty()
                        =~= Self::nodes_items(next_level@));
                }
            }
            nodes = next_level;
        }
        let ghost last_run = nodes@;
        let node = nodes.remove(0);
        proof {
            Self::lemma_nodes_items_single(last_run);
        }
        node
    }

    /// A run without subtrees holds no lines.
    proof fn lemma_nodes_items_empty(nodes: Seq<RopeNode<Line>>)
        requires
            nodes.len() == 0,
        ensures
            Self::nodes_items(nodes) == Seq::<Line>::empty(),
    {
    }

    /// A non-empty run's lines start with the lines of its first subtree.
    proof fn lemma_nodes_items_first(nodes: Seq<RopeNode<Line>>)
        requires
            nodes.len() > 0,
        ensures
            Self::nodes_items(nodes) == nodes.first().items() + Self::nodes_items(
                nodes.drop_first(),
            ),
    {
    }

    /// A run of one subtree holds exactly that subtree's lines.
    proof fn lemma_nodes_items_single(nodes: Seq<RopeNode<Line>>)
        requires
            nodes.len() == 1,
        ensures
            Self::nodes_items(nodes) == nodes.first().items(),
    {
        Self::lemma_nodes_items_first(nodes);
        Self::lemma_nodes_items_empty(nodes.drop_first());
        assert(nodes.first().items() + Seq::<Line>::empty() =~= nodes.first().items());
    }

    /// Appending a completed subtree appends its lines.
    proof fn lemma_nodes_items_push(nodes: Seq<RopeNode<Line>>, node: RopeNode<Line>)
        ensures
            Self::nodes_items(nodes.push(node)) == Self::nodes_items(nodes) + node.items(),
        decreases nodes.len(),
    {
        if nodes.len() == 0 {
            Self::lemma_nodes_items_single(nodes.push(node));
            Self::lemma_nodes_items_empty(nodes);
            assert(nodes.push(node).first() == node);
            assert(Self::nodes_items(nodes) + node.items() =~= node.items());
        } else {
            Self::lemma_nodes_items_first(nodes.push(node));
            Self::lemma_nodes_items_first(nodes);
            assert(nodes.push(node).drop_first() =~= nodes.drop_first().push(node));
            assert(nodes.push(node).first() == nodes.first());
            Self::lemma_nodes_items_push(nodes.drop_first(), node);
            assert(nodes.first().items() + (Self::nodes_items(nodes.drop_first())
                + node.items()) =~= (nodes.first().items() + Self::nodes_items(
                nodes.drop_first(),
            )) + node.items());
        }
    }
}

/// The line inserted at an index is exactly the line read back at that index:
/// in a sequence with `line` inserted at `index`, position `index` holds
/// `line`.
pub proof fn lemma_get_line_after_insert<Line>(lines: Seq<Line>, index: int, line: Line)
    requires
        0 <= index <= lines.len(),
    ensures
        lines.insert(index, line)[index] == line,
{
}

} // verus!
