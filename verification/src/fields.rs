//! The flattening traversal: iterative depth-first pre-order descent over
//! a value tree, yielding each leaf scalar with its rendered path, in
//! deterministic order — map children in key-sort order, sequence children
//! in index order. Composite nodes push a frame onto an explicit traversal
//! stack rather than recursing, so depth is bounded by memory, not by the
//! call stack. Only leaves are yielded.
//!
//! Path rendering joins field components with `.` and writes `[i]` for an
//! index, with no separator before a bracket.

use vstd::prelude::*;
use vstd::string::{StrSliceExecFns, StringExecFns};

use crate::path_text::{
    dec_digits, lemma_render_push, render_first, render_path, render_tail_seg,
};
use crate::lookup::SegView;
use crate::value::{arr_view, map_view, Value, ValueView};

verus! {

/// One component of the path from the root to the traversal's position.
#[derive(Debug)]
pub enum PathComponent {
    Key(String),
    Index(usize),
}

impl View for PathComponent {
    type V = SegView;

    open spec fn view(&self) -> SegView {
        match self {
            PathComponent::Key(k) => SegView::Field(k@),
            PathComponent::Index(i) => SegView::Index(*i as int),
        }
    }
}

/// The views of a component list, in order.
pub open spec fn cviews(comps: Seq<PathComponent>) -> Seq<SegView>
    decreases comps,
{
    if comps.len() == 0 {
        Seq::empty()
    } else {
        cviews(comps.drop_last()).push(comps.last()@)
    }
}

pub broadcast proof fn cviews_len(comps: Seq<PathComponent>)
    ensures
        #[trigger] cviews(comps).len() == comps.len(),
    decreases comps,
{
    if comps.len() > 0 {
        cviews_len(comps.drop_last());
    }
}

pub broadcast proof fn cviews_index(comps: Seq<PathComponent>, i: int)
    requires
        0 <= i < comps.len(),
    ensures
        #[trigger] cviews(comps)[i] == comps[i]@,
    decreases comps,
{
    cviews_len(comps);
    cviews_len(comps.drop_last());
    if i < comps.len() - 1 {
        cviews_index(comps.drop_last(), i);
        assert(comps.drop_last()[i] == comps[i]);
    } else {
        assert(comps.last() == comps[i]);
    }
}

/// The flattening of a subtree under a rendered path prefix: scalars are
/// one (path, value) pair; composites yield their children in order.
pub open spec fn flat_value(prefix: Seq<char>, v: ValueView) -> Seq<(Seq<char>, ValueView)>
    decreases v, 0nat,
{
    match v {
        ValueView::Object(m) => flat_entries(prefix, m, 0),
        ValueView::Array(items) => flat_items(prefix, items, 0),
        _ => seq![(prefix, v)],
    }
}

/// The flattening of a map node's children from position `i` on: each
/// child under `prefix '.' key`.
pub open spec fn flat_entries(
    prefix: Seq<char>,
    m: Seq<(Seq<char>, ValueView)>,
    i: int,
) -> Seq<(Seq<char>, ValueView)>
    decreases m, m.len() - i,
    when 0 <= i <= m.len()
{
    if i >= m.len() {
        Seq::empty()
    } else {
        flat_value(prefix + seq!['.'] + m[i].0, m[i].1) + flat_entries(prefix, m, i + 1)
    }
}

/// The flattening of a sequence node's children from position `i` on:
/// each child under `prefix [i]`.
pub open spec fn flat_items(prefix: Seq<char>, items: Seq<ValueView>, i: int) -> Seq<
    (Seq<char>, ValueView),
>
    decreases items, items.len() - i,
    when 0 <= i <= items.len()
{
    if i >= items.len() {
        Seq::empty()
    } else {
        flat_value(prefix + seq!['['] + dec_digits(i) + seq![']'], items[i]) + flat_items(
            prefix,
            items,
            i + 1,
        )
    }
}

/// The flattening of the root map's children from position `i` on: each
/// child under its bare key.
pub open spec fn flat_root_entries(m: Seq<(Seq<char>, ValueView)>, i: int) -> Seq<
    (Seq<char>, ValueView),
>
    decreases m, m.len() - i,
    when 0 <= i <= m.len()
{
    if i >= m.len() {
        Seq::empty()
    } else {
        flat_value(m[i].0, m[i].1) + flat_root_entries(m, i + 1)
    }
}

/// The whole flattening of an event's fields: every leaf with its
/// rendered path, in depth-first pre-order, map children by key order.
pub open spec fn flat_root(m: Seq<(Seq<char>, ValueView)>) -> Seq<(Seq<char>, ValueView)> {
    flat_root_entries(m, 0)
}

/// One frame of the traversal stack: a map node's or a sequence node's
/// children, and how many have been visited.
#[derive(Debug)]
pub enum Frame {
    Fields { entries: Vec<(String, Value)>, pos: usize },
    Items { items: Vec<Value>, pos: usize },
}

/// What a frame still yields, under its rendered prefix; the bottom frame
/// is the root and renders its keys bare.
pub open spec fn frame_rest(f: Frame, prefix: Seq<char>, root: bool) -> Seq<(Seq<char>, ValueView)> {
    match f {
        Frame::Fields { entries, pos } => if pos <= entries@.len() {
            if root {
                flat_root_entries(map_view(entries@), pos as int)
            } else {
                flat_entries(prefix, map_view(entries@), pos as int)
            }
        } else {
            Seq::empty()
        },
        Frame::Items { items, pos } => if pos <= items@.len() && !root {
            flat_items(prefix, arr_view(items@), pos as int)
        } else {
            Seq::empty()
        },
    }
}

/// What the frames below `j` still yield, topmost first. Frame `i`'s
/// prefix is the rendering of the first `i` path components.
pub open spec fn rest_stack(stack: Seq<Frame>, comps: Seq<SegView>, j: int) -> Seq<
    (Seq<char>, ValueView),
>
    decreases j,
    when j <= stack.len()
{
    if j <= 0 {
        Seq::empty()
    } else {
        frame_rest(stack[j - 1], render_path(comps.take(j - 1)), j - 1 == 0) + rest_stack(
            stack,
            comps,
            j - 1,
        )
    }
}

proof fn lemma_rest_stack_congruent(
    s1: Seq<Frame>,
    c1: Seq<SegView>,
    s2: Seq<Frame>,
    c2: Seq<SegView>,
    j: int,
)
    requires
        j <= s1.len(),
        j <= s2.len(),
        forall|i: int| 0 <= i < j ==> s1[i] == s2[i],
        forall|i: int| 0 <= i < j ==> c1.take(i) == c2.take(i),
    ensures
        rest_stack(s1, c1, j) == rest_stack(s2, c2, j),
    decreases j,
{
    if j > 0 {
        lemma_rest_stack_congruent(s1, c1, s2, c2, j - 1);
    }
}

/// The number of tree nodes in a value.
pub open spec fn vsize(v: ValueView) -> nat
    decreases v, 0nat,
{
    match v {
        ValueView::Object(m) => 1 + entries_size(m, 0),
        ValueView::Array(items) => 1 + items_size(items, 0),
        _ => 1,
    }
}

/// The nodes in a map node's children from position `i` on.
pub open spec fn entries_size(m: Seq<(Seq<char>, ValueView)>, i: int) -> nat
    decreases m, m.len() - i,
    when 0 <= i <= m.len()
{
    if i >= m.len() {
        0
    } else {
        vsize(m[i].1) + entries_size(m, i + 1)
    }
}

/// The nodes in a sequence node's children from position `i` on.
pub open spec fn items_size(items: Seq<ValueView>, i: int) -> nat
    decreases items, items.len() - i,
    when 0 <= i <= items.len()
{
    if i >= items.len() {
        0
    } else {
        vsize(items[i]) + items_size(items, i + 1)
    }
}

/// The unvisited nodes of one frame.
pub open spec fn frame_weight(f: Frame) -> nat {
    match f {
        Frame::Fields { entries, pos } => if pos <= entries@.len() {
            entries_size(map_view(entries@), pos as int)
        } else {
            0
        },
        Frame::Items { items, pos } => if pos <= items@.len() {
            items_size(arr_view(items@), pos as int)
        } else {
            0
        },
    }
}

/// The unvisited nodes of the frames below `j`.
pub open spec fn stack_weight(stack: Seq<Frame>, j: int) -> nat
    decreases j,
    when j <= stack.len()
{
    if j <= 0 {
        0
    } else {
        frame_weight(stack[j - 1]) + stack_weight(stack, j - 1)
    }
}

proof fn lemma_stack_weight_congruent(s1: Seq<Frame>, s2: Seq<Frame>, j: int)
    requires
        j <= s1.len(),
        j <= s2.len(),
        forall|i: int| 0 <= i < j ==> s1[i] == s2[i],
    ensures
        stack_weight(s1, j) == stack_weight(s2, j),
    decreases j,
{
    if j > 0 {
        lemma_stack_weight_congruent(s1, s2, j - 1);
    }
}

/// Whether a frame has visited all its children.
pub open spec fn frame_done(f: Frame) -> bool {
    match f {
        Frame::Fields { entries, pos } => pos >= entries@.len(),
        Frame::Items { items, pos } => pos >= items@.len(),
    }
}

/// Performs depth-first pre-order traversal of a nested value tree,
/// yielding (rendered path, scalar value) pairs. Each instance traverses
/// one tree once; a fresh traversal takes a fresh iterator.
pub struct FieldsIter {
    /// The explicit traversal stack; the root map's frame is at the
    /// bottom.
    stack: Vec<Frame>,
    /// Path components from the root to the frame on top of the stack.
    path: Vec<PathComponent>,
    /// The whole flattening being yielded.
    total: Ghost<Seq<(Seq<char>, ValueView)>>,
    /// What has been yielded already.
    emitted: Ghost<Seq<(Seq<char>, ValueView)>>,
}

impl FieldsIter {
    /// The whole flattening this traversal yields.
    pub closed spec fn total(&self) -> Seq<(Seq<char>, ValueView)> {
        self.total@
    }

    /// The pairs yielded so far, in order.
    pub closed spec fn emitted(&self) -> Seq<(Seq<char>, ValueView)> {
        self.emitted@
    }

    /// The path components from the root, as segments.
    pub closed spec fn comps(&self) -> Seq<SegView> {
        cviews(self.path@)
    }

    /// How many frames the traversal stack holds.
    pub closed spec fn depth(&self) -> nat {
        self.stack@.len()
    }

    /// What the traversal still yields.
    pub closed spec fn remaining(&self) -> Seq<(Seq<char>, ValueView)> {
        rest_stack(self.stack@, self.comps(), self.stack@.len() as int)
    }

    /// The unvisited nodes left on the stack.
    pub closed spec fn weight(&self) -> nat {
        stack_weight(self.stack@, self.stack@.len() as int)
    }

    /// The traversal's invariant: the stack is one frame deeper than the
    /// component path — or wholly gone — and what was yielded followed by
    /// what remains is the whole flattening.
    pub closed spec fn inv(&self) -> bool {
        &&& (self.stack@.len() == 0 || self.stack@.len() == self.path@.len() + 1)
        &&& self.bottom_is_fields()
        &&& self.emitted@ + self.remaining() == self.total@
    }

    /// Whether the invariant holds; the public face of [`FieldsIter::inv`].
    pub open spec fn wf(&self) -> bool {
        self.inv()
    }

    /// A fresh traversal of the given root fields: one frame on the
    /// stack — the root map's, with nothing visited — and an empty
    /// component path.
    pub fn new(fields: &Vec<(String, Value)>) -> (r: FieldsIter)
        ensures
            r.wf(),
            r.total() == flat_root(map_view(fields@)),
            r.emitted() == Seq::<(Seq<char>, ValueView)>::empty(),
            r.depth() == 1,
            r.comps() == Seq::<SegView>::empty(),
            r.bottom_is_fields(),
            frame_done(r.top()) == (fields@.len() == 0),
    {
        let entries = crate::event::clone_entry_vec(fields);
        let mut stack: Vec<Frame> = Vec::new();
        stack.push(Frame::Fields { entries, pos: 0 });
        let r = FieldsIter {
            stack,
            path: Vec::new(),
            total: Ghost(flat_root(map_view(fields@))),
            emitted: Ghost(Seq::empty()),
        };
        proof {
            assert(cviews(r.path@) =~= Seq::<SegView>::empty());
            assert(r.remaining() == frame_rest(
                r.stack@[0],
                render_path(cviews(r.path@).take(0)),
                true,
            ) + rest_stack(r.stack@, cviews(r.path@), 0));
            assert(r.remaining() =~= flat_root(map_view(fields@)));
            assert(r.emitted@ + r.remaining() =~= r.total@);
            assert(frame_done(r.top()) == (fields@.len() == 0)) by {
                match r.stack@.last() {
                    Frame::Fields { entries, pos } => {},
                    Frame::Items { items, pos } => {},
                }
            }
        }
        r
    }

    /// The rendered path of the traversal's position extended by one more
    /// component: fields joined with `.`, indices as `[i]`.
    #[verifier::loop_isolation(false)]
    pub fn make_path(&self, component: &PathComponent) -> (r: String)
        ensures
            r@ == render_path(self.comps().push(component@)),
    {
        broadcast use cviews_len, cviews_index;

        let mut out = String::new();
        let n = self.path.len();
        let mut i: usize = 0;
        while i < n
            invariant
                i <= n,
                n == self.path@.len(),
                out@ == render_path(self.comps().take(i as int)),
            decreases n - i,
        {
            let ghost pre = out@;
            render_component(&mut out, &self.path[i], i == 0);
            proof {
                lemma_render_push(self.comps().take(i as int), self.comps()[i as int]);
                assert(self.comps().take((i + 1) as int) =~= self.comps().take(i as int).push(
                    self.comps()[i as int],
                ));
                if i == 0 {
                    assert(pre =~= Seq::<char>::empty());
                    assert(out@ =~= render_path(self.comps().take(1)));
                }
            }
            i = i + 1;
        }
        proof {
            assert(self.comps().take(n as int) =~= self.comps());
        }
        let ghost pre = out@;
        render_component(&mut out, component, self.path.len() == 0);
        proof {
            lemma_render_push(self.comps(), component@);
            if n == 0 {
                assert(pre =~= Seq::<char>::empty());
                assert(out@ =~= render_path(self.comps().push(component@)));
            }
        }
        out
    }
}

impl FieldsIter {
    /// Pops the finished top frame and its path component.
    pub fn pop(&mut self)
        requires
            old(self).depth() >= 1,
            old(self).depth() == old(self).comps().len() + 1,
            old(self).bottom_is_fields(),
            frame_done(old(self).top()),
        ensures
            final(self).depth() == old(self).depth() - 1,
            final(self).depth() >= 1 ==> final(self).depth() == final(self).comps().len() + 1,
            final(self).remaining() == old(self).remaining(),
            final(self).weight() == old(self).weight(),
            final(self).total() == old(self).total(),
            final(self).emitted() == old(self).emitted(),
            final(self).bottom_is_fields(),
    {
        broadcast use cviews_len, cviews_index;

        let ghost stack0 = self.stack@;
        let ghost comps0 = self.comps();
        let ghost path0 = self.path@;
        let ghost k = stack0.len() - 1;
        let _frame = self.stack.pop();
        let _comp = self.path.pop();
        proof {
            assert(self.stack@ =~= stack0.drop_last());
            if path0.len() > 0 {
                assert(self.path@ =~= path0.drop_last());
            } else {
                assert(self.path@ =~= path0);
            }
            let comps1 = cviews(self.path@);
            assert(frame_rest(stack0[k], render_path(comps0.take(k)), k == 0) =~= Seq::<
                (Seq<char>, ValueView),
            >::empty()) by {
                match stack0[k] {
                    Frame::Fields { entries, pos } => {
                        crate::value::map_view_len(entries@);
                    },
                    Frame::Items { items, pos } => {
                        crate::value::arr_view_len(items@);
                    },
                }
            }
            assert(rest_stack(stack0, comps0, k + 1) =~= rest_stack(stack0, comps0, k));
            assert(frame_weight(stack0[k]) == 0) by {
                match stack0[k] {
                    Frame::Fields { entries, pos } => {
                        crate::value::map_view_len(entries@);
                    },
                    Frame::Items { items, pos } => {
                        crate::value::arr_view_len(items@);
                    },
                }
            }
            assert(forall|i: int| 0 <= i < k ==> self.stack@[i] == stack0[i]);
            assert forall|i: int| 0 <= i < k implies comps1.take(i) == comps0.take(i) by {
                assert(comps1.take(i) =~= comps0.take(i));
            }
            lemma_rest_stack_congruent(self.stack@, comps1, stack0, comps0, k);
            lemma_stack_weight_congruent(self.stack@, stack0, k);
        }
    }

    /// The frame on top of the stack.
    pub closed spec fn top(&self) -> Frame {
        self.stack@.last()
    }

    /// Whether the bottom frame, the root's, is a map frame.
    pub closed spec fn bottom_is_fields(&self) -> bool {
        self.stack@.len() >= 1 ==> self.stack@[0] is Fields
    }

    /// Hands a composite child to the traversal: pushes a frame over its
    /// children and the path component leading to it. A scalar child is
    /// handed straight back to be yielded.
    pub fn push(&mut self, value: Value, component: PathComponent) -> (r: Option<Value>)
        requires
            old(self).depth() >= 1,
            old(self).depth() == old(self).comps().len() + 1,
            old(self).bottom_is_fields(),
        ensures
            final(self).total() == old(self).total(),
            final(self).emitted() == old(self).emitted(),
            final(self).bottom_is_fields(),
            value@ is Object || value@ is Array ==> ({
                &&& r is None
                &&& final(self).depth() == old(self).depth() + 1
                &&& final(self).depth() == final(self).comps().len() + 1
                &&& final(self).comps() == old(self).comps().push(component@)
                &&& final(self).remaining() == flat_value(
                    render_path(old(self).comps().push(component@)),
                    value@,
                ) + old(self).remaining()
                &&& final(self).weight() + 1 == old(self).weight() + vsize(value@)
            }),
            !(value@ is Object || value@ is Array) ==> ({
                &&& r matches Some(v) && v == value
                &&& *final(self) == *old(self)
            }),
    {
        broadcast use cviews_len, cviews_index;

        let ghost stack0 = self.stack@;
        let ghost comps0 = self.comps();
        let ghost path0 = self.path@;
        let ghost cv = component@;
        let ghost k = stack0.len() as int;
        match value {
            Value::Object(entries) => {
                let ghost m = map_view(entries@);
                self.stack.push(Frame::Fields { entries, pos: 0 });
                self.path.push(component);
                proof {
                    assert(self.path@.drop_last() =~= path0);
                    assert(self.path@.last()@ == cv);
                    assert(cviews(self.path@) =~= comps0.push(cv));
                    let comps1 = cviews(self.path@);
                    assert(comps1.take(k) =~= comps1);
                    assert(self.stack@[k] == Frame::Fields { entries, pos: 0usize });
                    assert(frame_rest(self.stack@[k], render_path(comps1.take(k)), k == 0)
                        == flat_entries(render_path(comps1), m, 0));
                    assert(flat_value(render_path(comps0.push(cv)), value@) == flat_entries(
                        render_path(comps0.push(cv)),
                        m,
                        0,
                    ));
                    assert(forall|i: int| 0 <= i < k ==> self.stack@[i] == stack0[i]);
                    assert forall|i: int| 0 <= i < k implies comps1.take(i) == comps0.take(i) by {
                        assert(comps1.take(i) =~= comps0.take(i));
                    }
                    lemma_rest_stack_congruent(self.stack@, comps1, stack0, comps0, k);
                    lemma_stack_weight_congruent(self.stack@, stack0, k);
                    assert(frame_weight(self.stack@[k]) + 1 == vsize(value@)) by {
                        crate::value::map_view_len(entries@);
                    }
                }
                None
            },
            Value::Array(items) => {
                let ghost a = arr_view(items@);
                self.stack.push(Frame::Items { items, pos: 0 });
                self.path.push(component);
                proof {
                    assert(self.path@.drop_last() =~= path0);
                    assert(self.path@.last()@ == cv);
                    assert(cviews(self.path@) =~= comps0.push(cv));
                    let comps1 = cviews(self.path@);
                    assert(comps1.take(k) =~= comps1);
                    assert(self.stack@[k] == Frame::Items { items, pos: 0usize });
                    assert(frame_rest(self.stack@[k], render_path(comps1.take(k)), k == 0)
                        == flat_items(render_path(comps1), a, 0));
                    assert(flat_value(render_path(comps0.push(cv)), value@) == flat_items(
                        render_path(comps0.push(cv)),
                        a,
                        0,
                    ));
                    assert(forall|i: int| 0 <= i < k ==> self.stack@[i] == stack0[i]);
                    assert forall|i: int| 0 <= i < k implies comps1.take(i) == comps0.take(i) by {
                        assert(comps1.take(i) =~= comps0.take(i));
                    }
                    lemma_rest_stack_congruent(self.stack@, comps1, stack0, comps0, k);
                    lemma_stack_weight_congruent(self.stack@, stack0, k);
                    assert(frame_weight(self.stack@[k]) + 1 == vsize(value@)) by {
                        crate::value::arr_view_len(items@);
                    }
                }
                None
            },
            other => Some(other),
        }
    }
}

impl FieldsIter {
    /// The next leaf in depth-first pre-order, with its rendered path, or
    /// nothing once the whole tree has been yielded.
    #[verifier::loop_isolation(false)]
    #[verifier::rlimit(100)]
    pub fn next(&mut self) -> (r: Option<(String, Value)>)
        requires
            old(self).wf(),
        ensures
            final(self).wf(),
            final(self).total() == old(self).total(),
            old(self).emitted().len() < old(self).total().len() ==> ({
                &&& r matches Some(p) && p.0@ == old(self).total()[old(self).emitted().len() as int].0
                    && p.1@ == old(self).total()[old(self).emitted().len() as int].1
                &&& final(self).emitted() == old(self).emitted().push(
                    old(self).total()[old(self).emitted().len() as int],
                )
            }),
            old(self).emitted().len() == old(self).total().len() ==> ({
                &&& r is None
                &&& final(self).emitted() == old(self).emitted()
            }),
    {
        broadcast use cviews_len, cviews_index, crate::value::map_view_len,
            crate::value::map_view_index, crate::value::arr_view_len, crate::value::arr_view_index;

        proof {
            let pretotal = old(self).total();
            assert(old(self).emitted().len() + old(self).remaining().len() == pretotal.len());
        }
        loop
            invariant
                self.inv(),
                self.total() == old(self).total(),
                self.emitted() == old(self).emitted(),
            decreases self.weight(), self.depth(),
        {
            let depth = self.stack.len();
            if depth == 0 {
                proof {
                    assert(self.remaining() =~= Seq::<(Seq<char>, ValueView)>::empty());
                    assert(self.emitted() =~= self.total());
                }
                return None;
            }
            let ghost stack0 = self.stack@;
            let ghost comps0 = self.comps();
            let ghost k = depth - 1;
            let ghost oldrem = self.remaining();
            let ghost oldweight = self.weight();
            proof {
                assert(oldrem == frame_rest(stack0[k as int], render_path(comps0.take(k as int)), k
                    == 0) + rest_stack(stack0, comps0, k as int));
                assert(oldweight == frame_weight(stack0[k as int]) + stack_weight(
                    stack0,
                    k as int,
                ));
            }
            let top = self.stack.remove(depth - 1);
            proof {
                assert(self.stack@ =~= stack0.drop_last());
            }
            match top {
                Frame::Fields { entries, pos } => {
                    let n = entries.len();
                    let ghost m = map_view(entries@);
                    if pos >= n {
                        // finished frame: put it back and pop it with its component
                        self.stack.push(Frame::Fields { entries, pos });
                        proof {
                            assert(self.stack@ =~= stack0);
                        }
                        self.pop();
                        proof {
                            assert(self.weight() == oldweight && self.depth() < depth);
                        }
                    } else {
                        let (key, child) = map_entry_at(&entries, pos);
                        let ghost childv = child@;
                        proof {
                            assert(key@ == m[pos as int].0);
                            assert(childv == m[pos as int].1);
                        }
                        self.stack.push(Frame::Fields { entries, pos: pos + 1 });
                        let ghost stack1 = self.stack@;
                        let ghost advrest = frame_rest(
                            stack1[k as int],
                            render_path(comps0.take(k as int)),
                            k == 0,
                        );
                        proof {
                            assert(stack1 =~= stack0.update(
                                k as int,
                                Frame::Fields { entries, pos: (pos + 1) as usize },
                            ));
                            assert(forall|i: int| 0 <= i < k ==> stack1[i] == stack0[i]);
                            lemma_rest_stack_congruent(stack1, comps0, stack0, comps0, k as int);
                            lemma_stack_weight_congruent(stack1, stack0, k as int);
                            let prefix = render_path(comps0.take(k as int));
                            let childpfx = if k == 0 {
                                m[pos as int].0
                            } else {
                                prefix + seq!['.'] + m[pos as int].0
                            };
                            assert(frame_rest(stack0[k as int], prefix, k == 0) == flat_value(
                                childpfx,
                                childv,
                            ) + advrest);
                            assert(frame_weight(stack0[k as int]) == vsize(childv) + frame_weight(
                                stack1[k as int],
                            ));
                            // the child's prefix is the rendering of the
                            // extended component path
                            lemma_render_push(comps0, SegView::Field(m[pos as int].0));
                            if k == 0 {
                                assert(comps0.take(0) =~= Seq::<SegView>::empty());
                                assert(comps0 =~= Seq::<SegView>::empty());
                                assert(childpfx == render_path(
                                    comps0.push(SegView::Field(m[pos as int].0)),
                                ));
                            } else {
                                assert(comps0.take(k as int) =~= comps0);
                                assert(childpfx =~= render_path(
                                    comps0.push(SegView::Field(m[pos as int].0)),
                                ));
                            }
                        }
                        let comp = PathComponent::Key(key);
                        let rendered = self.make_path(&comp);
                        match self.push(child, comp) {
                            Some(scalar) => {
                                proof {
                                    assert(flat_value(
                                        render_path(comps0.push(SegView::Field(m[pos as int].0))),
                                        childv,
                                    ) =~= seq![
                                        (
                                            render_path(
                                                comps0.push(SegView::Field(m[pos as int].0)),
                                            ),
                                            childv,
                                        ),
                                    ]);
                                    assert(oldrem =~= seq![(rendered@, childv)] + self.remaining());
                                    assert(self.total()[self.emitted().len() as int] == (
                                        rendered@,
                                        childv,
                                    )) by {
                                        assert(self.emitted() + oldrem =~= self.total());
                                    }
                                }
                                let ghost yielded = self.total()[self.emitted().len() as int];
                                proof {
                                    assert((self.emitted().push(yielded)) + self.remaining()
                                        =~= self.total());
                                }
                                self.emitted = Ghost(self.emitted@.push(yielded));
                                return Some((rendered, scalar));
                            },
                            None => {
                                proof {
                                    assert(self.remaining() =~= oldrem);
                                    assert(self.weight() < oldweight);
                                }
                            },
                        }
                    }
                },
                Frame::Items { items, pos } => {
                    let n = items.len();
                    let ghost a = arr_view(items@);
                    if pos >= n {
                        self.stack.push(Frame::Items { items, pos });
                        proof {
                            assert(self.stack@ =~= stack0);
                        }
                        self.pop();
                        proof {
                            assert(self.weight() == oldweight && self.depth() < depth);
                        }
                    } else {
                        let child = items[pos].clone();
                        let ghost childv = child@;
                        proof {
                            assert(childv == a[pos as int]);
                        }
                        self.stack.push(Frame::Items { items, pos: pos + 1 });
                        let ghost stack1 = self.stack@;
                        let ghost advrest = frame_rest(
                            stack1[k as int],
                            render_path(comps0.take(k as int)),
                            k == 0,
                        );
                        proof {
                            assert(stack1 =~= stack0.update(
                                k as int,
                                Frame::Items { items, pos: (pos + 1) as usize },
                            ));
                            assert(forall|i: int| 0 <= i < k ==> stack1[i] == stack0[i]);
                            lemma_rest_stack_congruent(stack1, comps0, stack0, comps0, k as int);
                            lemma_stack_weight_congruent(stack1, stack0, k as int);
                            let prefix = render_path(comps0.take(k as int));
                            assert(k != 0) by {
                                assert(stack0[0] is Fields);
                            }
                            let childpfx = prefix + seq!['['] + dec_digits(pos as int) + seq![']'];
                            assert(frame_rest(stack0[k as int], prefix, false) == flat_value(
                                childpfx,
                                childv,
                            ) + advrest);
                            assert(frame_weight(stack0[k as int]) == vsize(childv) + frame_weight(
                                stack1[k as int],
                            ));
                            lemma_render_push(comps0, SegView::Index(pos as int));
                            assert(comps0.take(k as int) =~= comps0);
                            assert(childpfx =~= render_path(
                                comps0.push(SegView::Index(pos as int)),
                            ));
                        }
                        let comp = PathComponent::Index(pos);
                        let rendered = self.make_path(&comp);
                        match self.push(child, comp) {
                            Some(scalar) => {
                                proof {
                                    assert(flat_value(
                                        render_path(comps0.push(SegView::Index(pos as int))),
                                        childv,
                                    ) =~= seq![
                                        (
                                            render_path(comps0.push(SegView::Index(pos as int))),
                                            childv,
                                        ),
                                    ]);
                                    assert(oldrem =~= seq![(rendered@, childv)] + self.remaining());
                                    assert(self.total()[self.emitted().len() as int] == (
                                        rendered@,
                                        childv,
                                    )) by {
                                        assert(self.emitted() + oldrem =~= self.total());
                                    }
                                }
                                let ghost yielded = self.total()[self.emitted().len() as int];
                                proof {
                                    assert((self.emitted().push(yielded)) + self.remaining()
                                        =~= self.total());
                                }
                                self.emitted = Ghost(self.emitted@.push(yielded));
                                return Some((rendered, scalar));
                            },
                            None => {
                                proof {
                                    assert(self.remaining() =~= oldrem);
                                    assert(self.weight() < oldweight);
                                }
                            },
                        }
                    }
                },
            }
        }
    }
}

/// The entry at a position of a map frame, key and value cloned.
fn map_entry_at(entries: &Vec<(String, Value)>, i: usize) -> (r: (String, Value))
    requires
        i < entries@.len(),
    ensures
        r.0@ == entries@[i as int].0@,
        r.1@ == entries@[i as int].1@,
{
    let key = entries[i].0.clone();
    let val = entries[i].1.clone();
    (key, val)
}

/// All leaves of an event's fields, flattened: every (rendered path,
/// scalar) pair in depth-first pre-order, map children in key order.
#[verifier::loop_isolation(false)]
pub fn all_fields(fields: &Vec<(String, Value)>) -> (r: Vec<(String, Value)>)
    ensures
        map_view(r@) == flat_root(map_view(fields@)),
{
    broadcast use crate::value::map_view_len, crate::value::map_view_index;

    let ghost total = flat_root(map_view(fields@));
    let mut iter = FieldsIter::new(fields);
    let mut out: Vec<(String, Value)> = Vec::new();
    loop
        invariant
            iter.wf(),
            iter.total() == total,
            map_view(out@) =~= iter.emitted(),
            iter.emitted().len() <= total.len(),
        decreases total.len() - iter.emitted().len(),
    {
        proof {
            assert(iter.emitted().len() + iter.remaining().len() == total.len());
        }
        let ghost pre = map_view(out@);
        match iter.next() {
            Some((path, value)) => {
                out.push((path, value));
                proof {
                    assert(map_view(out@) =~= pre.push(
                        (out@.last().0@, out@.last().1.view()),
                    ));
                    assert(map_view(out@) =~= iter.emitted());
                }
            },
            None => {
                proof {
                    assert(map_view(out@) =~= total);
                }
                return out;
            },
        }
    }
}

/// Writes one path component onto a rendered path: a first field bare, a
/// later field after `.`, an index as `[i]`.
fn render_component(out: &mut String, component: &PathComponent, first: bool)
    ensures
        first ==> final(out)@ == old(out)@ + render_first(component@),
        !first ==> final(out)@ == old(out)@ + render_tail_seg(component@),
{
    match component {
        PathComponent::Key(k) => {
            if !first {
                out.append(".");
                proof {
                    reveal_strlit(".");
                }
            }
            out.append(k.as_str());
            proof {
                if first {
                    assert(final(out)@ =~= old(out)@ + render_first(component@));
                } else {
                    assert(final(out)@ =~= old(out)@ + render_tail_seg(component@));
                }
            }
        },
        PathComponent::Index(i) => {
            out.append("[");
            crate::path_text::append_decimal(out, *i);
            out.append("]");
            proof {
                reveal_strlit("[");
                reveal_strlit("]");
                assert(final(out)@ =~= old(out)@ + (seq!['['] + dec_digits(*i as int) + seq![
                    ']',
                ]));
            }
        },
    }
}

} // verus!

verus! {

impl crate::event::LogEvent {
    /// All leaves of the event, flattened: every (rendered path, scalar)
    /// pair in depth-first pre-order, map children in key order.
    pub fn pairs(&self) -> (r: Vec<(String, Value)>)
        requires
            self.wf(),
        ensures
            map_view(r@) == flat_root(self@),
    {
        let entries = self.entries();
        all_fields(&entries)
    }
}

} // verus!
