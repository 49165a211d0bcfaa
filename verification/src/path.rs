//! Relative paths as component chains, and the stack-based state machine
//! that keeps the still-open ancestor directories of a walk and decides when
//! each one can be resolved.

use vstd::prelude::*;

verus! {

broadcast use crate::views::lemma_vec_deep_view_len, crate::views::lemma_vec_deep_view_index;

/// A path, mathematically: its components, root-to-leaf, each a character
/// sequence.
pub type PathModel = Seq<Seq<char>>;

/// `a` is an ancestor of `b` or equal to it: `a`'s components lead `b`'s.
pub open spec fn is_path_prefix(a: PathModel, b: PathModel) -> bool {
    a.len() <= b.len() && a == b.take(a.len() as int)
}

/// A well-formed path component: non-empty text without the separator and
/// without NUL.
pub open spec fn component_wf(c: Seq<char>) -> bool {
    c.len() > 0 && forall|i: int|
        0 <= i < c.len() ==> (#[trigger] c[i]) as int != 0 && c[i] as int != 47
}

/// Every component of the path is well-formed.
pub open spec fn path_wf(p: PathModel) -> bool {
    forall|i: int| 0 <= i < p.len() ==> component_wf(#[trigger] p[i])
}

/// A filesystem path relative to a walk, kept as its components.
pub struct TreePath {
    components: Vec<String>,
}

impl View for TreePath {
    type V = PathModel;

    closed spec fn view(&self) -> PathModel {
        self.components.deep_view()
    }
}

impl DeepView for TreePath {
    type V = PathModel;

    open spec fn deep_view(&self) -> PathModel {
        self.view()
    }
}

impl TreePath {
    /// A path from its components, root-to-leaf.
    pub fn new(components: Vec<String>) -> (p: TreePath)
        ensures
            p@ == components.deep_view(),
    {
        TreePath { components }
    }

    /// How many components the path has.
    pub fn depth(&self) -> (n: usize)
        ensures
            n == self@.len(),
    {
        self.components.len()
    }

    /// An identical path, component for component.
    pub fn dup(&self) -> (r: TreePath)
        ensures
            r@ == self@,
    {
        let mut cs: Vec<String> = Vec::new();
        let mut i: usize = 0;
        while i < self.components.len()
            invariant
                i <= self.components.len(),
                cs.deep_view() == self@.take(i as int),
            decreases self.components.len() - i,
        {
            let c = self.components[i].clone();
            cs.push(c);
            proof {
                assert(cs@.len() == i + 1);
                assert(cs@[i as int]@ == self.components@[i as int]@);
                assert(cs.deep_view()[i as int] == cs@[i as int]@);
                assert(self@[i as int] == self.components@[i as int]@);
                assert(cs.deep_view() =~= self@.take(i + 1));
            }
            i = i + 1;
        }
        proof {
            assert(self@.take(self@.len() as int) =~= self@);
        }
        TreePath { components: cs }
    }

    /// Whether the two paths have exactly the same components.
    pub fn eq_path(&self, other: &TreePath) -> (r: bool)
        ensures
            r == (self@ == other@),
    {
        if self.components.len() != other.components.len() {
            proof {
                assert(self@.len() == self.components.len());
                assert(other@.len() == other.components.len());
            }
            return false;
        }
        let mut i: usize = 0;
        while i < self.components.len()
            invariant
                i <= self.components.len(),
                self.components.len() == other.components.len(),
                forall|k: int| 0 <= k < i ==> self@[k] == other@[k],
            decreases self.components.len() - i,
        {
            if !(self.components[i] == other.components[i]) {
                proof {
                    assert(self@[i as int] == self.components@[i as int]@);
                    assert(other@[i as int] == other.components@[i as int]@);
                }
                return false;
            }
            proof {
                assert(self@[i as int] == other@[i as int]);
            }
            i = i + 1;
        }
        proof {
            assert(self@ =~= other@);
        }
        true
    }

    /// Whether `base` is an ancestor of this path or this path itself.
    pub fn starts_with(&self, base: &TreePath) -> (r: bool)
        ensures
            r == is_path_prefix(base@, self@),
    {
        if base.components.len() > self.components.len() {
            return false;
        }
        let mut i: usize = 0;
        while i < base.components.len()
            invariant
                i <= base.components.len(),
                base.components.len() <= self.components.len(),
                forall|k: int| 0 <= k < i ==> base@[k] == self@[k],
            decreases base.components.len() - i,
        {
            if !(base.components[i] == self.components[i]) {
                proof {
                    assert(base@[i as int] == base.components@[i as int]@);
                    assert(self@[i as int] == self.components@[i as int]@);
                    if is_path_prefix(base@, self@) {
                        assert(base@[i as int] == self@.take(base@.len() as int)[i as int]);
                    }
                }
                return false;
            }
            proof {
                assert(base@[i as int] == self@[i as int]);
            }
            i = i + 1;
        }
        proof {
            assert(base@ =~= self@.take(base@.len() as int));
        }
        true
    }

    /// The parent path: every component but the last; `None` for the empty
    /// path, which has no parent.
    pub fn parent(&self) -> (r: Option<TreePath>)
        ensures
            self@.len() == 0 ==> r is None,
            self@.len() > 0 ==> r is Some && r.unwrap()@ == self@.drop_last(),
    {
        if self.components.len() == 0 {
            return None;
        }
        let mut cs: Vec<String> = Vec::new();
        let mut i: usize = 0;
        while i < self.components.len() - 1
            invariant
                self.components.len() > 0,
                i <= self.components.len() - 1,
                cs.deep_view() == self@.take(i as int),
            decreases self.components.len() - 1 - i,
        {
            cs.push(self.components[i].clone());
            proof {
                assert(cs.deep_view() =~= self@.take(i + 1));
            }
            i = i + 1;
        }
        proof {
            assert(self@.take(self@.len() - 1) =~= self@.drop_last());
        }
        Some(TreePath { components: cs })
    }

    /// The components, root-to-leaf.
    pub fn components(&self) -> (r: &Vec<String>)
        ensures
            r.deep_view() == self@,
    {
        &self.components
    }

    /// The basename: the last component, or empty text for the empty path.
    pub fn last_name(&self) -> (r: String)
        ensures
            self@.len() > 0 ==> r@ == self@.last(),
            self@.len() == 0 ==> r@ == Seq::<char>::empty(),
    {
        if self.components.len() == 0 {
            String::new()
        } else {
            let r = self.components[self.components.len() - 1].clone();
            proof {
                assert(self@.last() == self.components@[self.components@.len() - 1]@);
            }
            r
        }
    }
}

/// How many entries the pop phase removes: stack entries are popped, leaf
/// first, until the top is an ancestor-or-equal of the new parent.
pub open spec fn pop_count(stack: Seq<PathModel>, parent: PathModel) -> int
    decreases stack.len(),
{
    if stack.len() == 0 {
        0
    } else if is_path_prefix(stack.last(), parent) {
        0
    } else {
        1 + pop_count(stack.drop_last(), parent)
    }
}

/// The directories the pop phase hands out for resolution, in pop order,
/// leaf first.
pub open spec fn popped_dirs(stack: Seq<PathModel>, parent: PathModel) -> Seq<PathModel> {
    stack.skip(stack.len() - pop_count(stack, parent)).reverse()
}

/// The stack entries the pop phase keeps.
pub open spec fn kept_stack(stack: Seq<PathModel>, parent: PathModel) -> Seq<PathModel> {
    stack.take(stack.len() - pop_count(stack, parent))
}

/// The ancestors pushed after the pop phase, leaf first: starting at the new
/// parent, up to (and excluding) the kept top, stopping if the walk's root
/// is left.
pub open spec fn climb_chain(cur: PathModel, stop: Option<PathModel>, root: PathModel) -> Seq<
    PathModel,
>
    decreases cur.len(),
{
    if stop is Some && cur == stop.unwrap() {
        Seq::empty()
    } else if !is_path_prefix(root, cur) {
        Seq::empty()
    } else if cur.len() == 0 {
        seq![cur]
    } else {
        seq![cur] + climb_chain(cur.drop_last(), stop, root)
    }
}

/// The parent the state machine works against: the item's parent path, or
/// nothing at the end of the walk (the empty path has no parent).
pub open spec fn parent_of_item(item: Option<PathModel>) -> Option<PathModel> {
    match item {
        Some(p) => if p.len() > 0 {
            Some(p.drop_last())
        } else {
            None
        },
        None => None,
    }
}

/// The model of an optional path argument.
pub open spec fn item_model(item: Option<&TreePath>) -> Option<PathModel> {
    match item {
        Some(p) => Some(p@),
        None => None,
    }
}

/// What `process` hands out for resolution: on a parent, the popped
/// entries; at the end of the walk, the whole stack, leaf first, root last.
pub open spec fn process_resolved(stack: Seq<PathModel>, parent_opt: Option<PathModel>) -> Seq<
    PathModel,
> {
    match parent_opt {
        Some(parent) => popped_dirs(stack, parent),
        None => stack.reverse(),
    }
}

/// The stack after `process`: on a parent, the kept entries plus the climb
/// chain, root-to-leaf again; at the end of the walk, empty.
pub open spec fn process_stack(
    root: PathModel,
    stack: Seq<PathModel>,
    parent_opt: Option<PathModel>,
) -> Seq<PathModel> {
    match parent_opt {
        Some(parent) => {
            let kept = kept_stack(stack, parent);
            let stop = if kept.len() > 0 {
                Some(kept.last())
            } else {
                None
            };
            kept + climb_chain(parent, stop, root).reverse()
        },
        None => Seq::empty(),
    }
}

/// The stack of ancestor directories still open during a walk: always a
/// root-to-leaf chain ending at the parent of the most recent path.
pub struct PathWalkState {
    root: TreePath,
    parent_stack: Vec<TreePath>,
}

impl PathWalkState {
    /// The walk's root path.
    pub closed spec fn root_model(&self) -> PathModel {
        self.root@
    }

    /// The open directories, root first.
    pub closed spec fn stack_model(&self) -> Seq<PathModel> {
        self.parent_stack.deep_view()
    }

    /// A fresh state: the root itself is open when it is a directory, and
    /// nothing is otherwise.
    pub fn new(root: TreePath, is_dir: bool) -> (s: PathWalkState)
        ensures
            s.root_model() == root@,
            s.stack_model() == if is_dir {
                seq![root@]
            } else {
                Seq::<PathModel>::empty()
            },
    {
        let mut parent_stack: Vec<TreePath> = Vec::new();
        if is_dir {
            parent_stack.push(root.dup());
        }
        let s = PathWalkState { root, parent_stack };
        proof {
            if is_dir {
                assert(s.stack_model() =~= seq![s.root@]);
            } else {
                assert(s.stack_model() =~= Seq::<PathModel>::empty());
            }
        }
        s
    }

    /// Feeds the next path of the walk (or nothing, at its end) and returns
    /// the directories that are now complete and must be resolved, in order.
    pub fn process(&mut self, item: Option<&TreePath>) -> (resolved: Vec<TreePath>)
        ensures
            final(self).root_model() == old(self).root_model(),
            resolved.deep_view() == process_resolved(
                old(self).stack_model(),
                parent_of_item(item_model(item)),
            ),
            final(self).stack_model() == process_stack(
                old(self).root_model(),
                old(self).stack_model(),
                parent_of_item(item_model(item)),
            ),
    {
        let parent_opt: Option<TreePath> = match item {
            Some(p) => p.parent(),
            None => None,
        };
        let mut resolved: Vec<TreePath> = Vec::new();
        let ghost stack0 = self.stack_model();
        proof {
            assert(stack0.take(stack0.len() as int) =~= stack0);
            assert(resolved.deep_view() =~= stack0.skip(stack0.len() as int).reverse());
        }
        match parent_opt {
            Some(parent) => {
                let ghost pm = parent@;
                loop
                    invariant
                        self.root_model() == old(self).root_model(),
                        pm == parent@,
                        resolved@.len() <= stack0.len(),
                        self.stack_model() == stack0.take(stack0.len() - resolved@.len()),
                        resolved.deep_view() == stack0.skip(
                            stack0.len() - resolved@.len(),
                        ).reverse(),
                        pop_count(stack0, pm) == resolved@.len() + pop_count(
                            self.stack_model(),
                            pm,
                        ),
                    ensures
                        self.root_model() == old(self).root_model(),
                        pm == parent@,
                        pop_count(self.stack_model(), pm) == 0,
                        self.stack_model() == kept_stack(stack0, pm),
                        resolved.deep_view() == popped_dirs(stack0, pm),
                    decreases self.parent_stack.len(),
                {
                    proof {
                        assert(self.stack_model().len() == self.parent_stack@.len());
                    }
                    if self.parent_stack.len() == 0 {
                        proof {
                            assert(pop_count(self.stack_model(), pm) == 0);
                            assert(self.stack_model() =~= kept_stack(stack0, pm));
                            assert(resolved.deep_view() =~= popped_dirs(stack0, pm));
                        }
                        break ;
                    }
                    let top_is_prefix = {
                        let last = &self.parent_stack[self.parent_stack.len() - 1];
                        proof {
                            assert(self.stack_model().last() == last@);
                        }
                        parent.starts_with(last)
                    };
                    if top_is_prefix {
                        proof {
                            assert(pop_count(self.stack_model(), pm) == 0);
                            assert(self.stack_model() =~= kept_stack(stack0, pm));
                            assert(resolved.deep_view() =~= popped_dirs(stack0, pm));
                        }
                        break ;
                    }
                    let ghost stack_before = self.stack_model();
                    let ghost j0 = resolved@.len() as int;
                    let ghost lth = stack0.len() as int;
                    let t = self.parent_stack.pop().unwrap();
                    let ghost tv = t.deep_view();
                    proof {
                        assert(tv == stack_before.last());
                        assert(!is_path_prefix(stack_before.last(), pm));
                    }
                    resolved.push(t);
                    proof {
                        assert(self.stack_model() =~= stack_before.drop_last());
                        assert(self.stack_model() =~= stack0.take(lth - (j0 + 1)));
                        assert(stack_before.last() == stack0[lth - j0 - 1]);
                        assert forall|k: int| 0 <= k < j0 + 1 implies #[trigger] resolved.deep_view()[k]
                            == stack0.skip(lth - (j0 + 1)).reverse()[k] by {
                            assert(stack0.skip(lth - (j0 + 1)).reverse()[k] == stack0[lth - 1 - k]);
                            if k < j0 {
                                assert(resolved.deep_view()[k] == stack0.skip(
                                    lth - j0,
                                ).reverse()[k]);
                                assert(stack0.skip(lth - j0).reverse()[k] == stack0[lth - 1 - k]);
                            } else {
                                assert(resolved.deep_view()[k] == tv);
                            }
                        }
                        assert(resolved.deep_view() =~= stack0.skip(lth - (j0 + 1)).reverse());
                        assert(pop_count(stack_before, pm) == 1 + pop_count(
                            self.stack_model(),
                            pm,
                        ));
                    }
                }
                let ghost kept = self.stack_model();
                let ghost stop: Option<PathModel> = if kept.len() > 0 {
                    Some(kept.last())
                } else {
                    None
                };
                let ghost chain = climb_chain(pm, stop, self.root_model());
                let mut parents: Vec<TreePath> = Vec::new();
                let mut cur: TreePath = parent;
                let mut done: bool = false;
                proof {
                    assert(parents.deep_view() =~= Seq::<PathModel>::empty());
                    assert(Seq::<PathModel>::empty() + chain =~= chain);
                }
                while !done
                    invariant
                        self.root_model() == old(self).root_model(),
                        self.stack_model() == kept,
                        self.parent_stack@.len() == kept.len(),
                        stop == (if kept.len() > 0 {
                            Some(kept.last())
                        } else {
                            None::<PathModel>
                        }),
                        chain == climb_chain(pm, stop, self.root_model()),
                        chain == parents.deep_view() + (if done {
                            Seq::<PathModel>::empty()
                        } else {
                            climb_chain(cur@, stop, self.root_model())
                        }),
                    decreases (if done {
                        0int
                    } else {
                        cur@.len() as int + 1
                    }),
                {
                    let at_stop = if self.parent_stack.len() > 0 {
                        let last = &self.parent_stack[self.parent_stack.len() - 1];
                        proof {
                            assert(self.stack_model().last() == last@);
                        }
                        cur.eq_path(last)
                    } else {
                        false
                    };
                    if at_stop {
                        done = true;
                        proof {
                            assert(climb_chain(cur@, stop, self.root_model())
                                =~= Seq::<PathModel>::empty());
                        }
                    } else if !cur.starts_with(&self.root) {
                        done = true;
                        proof {
                            assert(climb_chain(cur@, stop, self.root_model())
                                =~= Seq::<PathModel>::empty());
                        }
                    } else {
                        let ghost cur0 = cur@;
                        let ghost pv0 = parents.deep_view();
                        parents.push(cur.dup());
                        proof {
                            assert(parents.deep_view() =~= pv0 + seq![cur0]);
                        }
                        match cur.parent() {
                            Some(next) => {
                                cur = next;
                                proof {
                                    assert(cur@ == cur0.drop_last());
                                    assert(climb_chain(cur0, stop, self.root_model()) == seq![
                                        cur0,
                                    ] + climb_chain(cur@, stop, self.root_model()));
                                    assert(pv0 + (seq![cur0] + climb_chain(
                                        cur@,
                                        stop,
                                        self.root_model(),
                                    )) =~= (pv0 + seq![cur0]) + climb_chain(
                                        cur@,
                                        stop,
                                        self.root_model(),
                                    ));
                                }
                            },
                            None => {
                                done = true;
                                proof {
                                    assert(cur0.len() == 0);
                                    assert(climb_chain(cur0, stop, self.root_model()) == seq![
                                        cur0,
                                    ]);
                                    assert(pv0 + seq![cur0] =~= (pv0 + seq![cur0])
                                        + Seq::<PathModel>::empty());
                                }
                            },
                        }
                    }
                }
                proof {
                    assert(parents.deep_view() + Seq::<PathModel>::empty()
                        =~= parents.deep_view());
                    assert(parents.deep_view() == chain);
                    assert(parents.deep_view() =~= chain.take(parents@.len() as int));
                    assert(chain.skip(parents@.len() as int).reverse()
                        =~= Seq::<PathModel>::empty());
                    assert(self.stack_model() =~= kept + chain.skip(
                        parents@.len() as int,
                    ).reverse());
                }
                while parents.len() > 0
                    invariant
                        self.root_model() == old(self).root_model(),
                        parents@.len() <= chain.len(),
                        parents.deep_view() == chain.take(parents@.len() as int),
                        self.stack_model() == kept + chain.skip(parents@.len() as int).reverse(),
                    decreases parents.len(),
                {
                    let ghost n0 = parents@.len() as int;
                    let ghost sm0 = self.stack_model();
                    let pb = parents.pop().unwrap();
                    let ghost pbv = pb.deep_view();
                    proof {
                        assert(pbv == chain.take(n0)[n0 - 1]);
                        assert(chain.take(n0)[n0 - 1] == chain[n0 - 1]);
                    }
                    self.parent_stack.push(pb);
                    proof {
                        assert(parents.deep_view() =~= chain.take(n0 - 1));
                        assert(self.stack_model() =~= sm0 + seq![pbv]);
                        assert(chain.skip(n0 - 1).reverse() =~= chain.skip(n0).reverse() + seq![
                            chain[n0 - 1],
                        ]);
                        assert(self.stack_model() =~= kept + chain.skip(n0 - 1).reverse());
                    }
                }
                proof {
                    assert(chain.skip(0) =~= chain);
                    assert(parent_of_item(item_model(item)) == Some(pm));
                    assert(self.stack_model() == process_stack(
                        old(self).root_model(),
                        stack0,
                        Some(pm),
                    ));
                }
            },
            None => {
                loop
                    invariant
                        self.root_model() == old(self).root_model(),
                        resolved@.len() <= stack0.len(),
                        self.stack_model() == stack0.take(stack0.len() - resolved@.len()),
                        resolved.deep_view() == stack0.skip(
                            stack0.len() - resolved@.len(),
                        ).reverse(),
                    ensures
                        self.root_model() == old(self).root_model(),
                        self.stack_model() == Seq::<PathModel>::empty(),
                        resolved.deep_view() == stack0.reverse(),
                    decreases self.parent_stack.len(),
                {
                    proof {
                        assert(self.stack_model().len() == self.parent_stack@.len());
                    }
                    if self.parent_stack.len() == 0 {
                        proof {
                            assert(self.stack_model() =~= Seq::<PathModel>::empty());
                            assert(stack0.skip(stack0.len() - resolved@.len())
                                =~= stack0.skip(0));
                            assert(stack0.skip(0) =~= stack0);
                        }
                        break ;
                    }
                    let ghost stack_before = self.stack_model();
                    let ghost j0 = resolved@.len() as int;
                    let ghost lth = stack0.len() as int;
                    let t = self.parent_stack.pop().unwrap();
                    let ghost tv = t.deep_view();
                    proof {
                        assert(tv == stack_before.last());
                    }
                    resolved.push(t);
                    proof {
                        assert(self.stack_model() =~= stack_before.drop_last());
                        assert(self.stack_model() =~= stack0.take(lth - (j0 + 1)));
                        assert(stack_before.last() == stack0[lth - j0 - 1]);
                        assert forall|k: int| 0 <= k < j0 + 1 implies #[trigger] resolved.deep_view()[k]
                            == stack0.skip(lth - (j0 + 1)).reverse()[k] by {
                            assert(stack0.skip(lth - (j0 + 1)).reverse()[k] == stack0[lth - 1 - k]);
                            if k < j0 {
                                assert(resolved.deep_view()[k] == stack0.skip(
                                    lth - j0,
                                ).reverse()[k]);
                                assert(stack0.skip(lth - j0).reverse()[k] == stack0[lth - 1 - k]);
                            } else {
                                assert(resolved.deep_view()[k] == tv);
                            }
                        }
                        assert(resolved.deep_view() =~= stack0.skip(lth - (j0 + 1)).reverse());
                    }
                }
            },
        }
        resolved
    }
}

/// The walk state of the single-algorithm walker: as `PathWalkState`, with
/// the root always open from the start.
pub struct WalkState {
    inner: PathWalkState,
}

impl WalkState {
    /// The walk's root path.
    pub closed spec fn root_model(&self) -> PathModel {
        self.inner.root_model()
    }

    /// The open directories, root first.
    pub closed spec fn stack_model(&self) -> Seq<PathModel> {
        self.inner.stack_model()
    }

    /// A fresh state with the root already open.
    pub fn new(root: TreePath) -> (s: WalkState)
        ensures
            s.root_model() == root@,
            s.stack_model() == seq![root@],
    {
        WalkState { inner: PathWalkState::new(root, true) }
    }

    /// Feeds the next path of the walk (or nothing, at its end) and returns
    /// the directories that are now complete, in resolution order.
    pub fn process(&mut self, item: Option<&TreePath>) -> (resolved: Vec<TreePath>)
        ensures
            final(self).root_model() == old(self).root_model(),
            resolved.deep_view() == process_resolved(
                old(self).stack_model(),
                parent_of_item(item_model(item)),
            ),
            final(self).stack_model() == process_stack(
                old(self).root_model(),
                old(self).stack_model(),
                parent_of_item(item_model(item)),
            ),
    {
        self.inner.process(item)
    }
}

/// The stack invariant: every entry is a strict ancestor of the one above
/// it, so the stack is always a root-to-leaf chain.
pub open spec fn is_ancestor_chain(stack: Seq<PathModel>) -> bool {
    forall|i: int, j: int|
        0 <= i < j < stack.len() ==> is_path_prefix(#[trigger] stack[i], #[trigger] stack[j])
            && stack[i].len() < stack[j].len()
}

/// Every stack entry lies under the walk's root.
pub open spec fn all_under_root(root: PathModel, stack: Seq<PathModel>) -> bool {
    forall|k: int| 0 <= k < stack.len() ==> is_path_prefix(root, #[trigger] stack[k])
}

proof fn lemma_prefix_trans(a: PathModel, b: PathModel, c: PathModel)
    requires
        is_path_prefix(a, b),
        is_path_prefix(b, c),
    ensures
        is_path_prefix(a, c),
{
    assert(a =~= c.take(a.len() as int));
}

proof fn lemma_prefix_shorter(a: PathModel, b: PathModel, p: PathModel)
    requires
        is_path_prefix(a, p),
        is_path_prefix(b, p),
        a.len() <= b.len(),
    ensures
        is_path_prefix(a, b),
{
    assert(a =~= b.take(a.len() as int));
}

proof fn lemma_pop_count_bounds(stack: Seq<PathModel>, parent: PathModel)
    ensures
        0 <= pop_count(stack, parent) <= stack.len(),
        pop_count(stack, parent) < stack.len() ==> is_path_prefix(
            stack[stack.len() - pop_count(stack, parent) - 1],
            parent,
        ),
    decreases stack.len(),
{
    if stack.len() > 0 && !is_path_prefix(stack.last(), parent) {
        lemma_pop_count_bounds(stack.drop_last(), parent);
        if pop_count(stack.drop_last(), parent) < stack.drop_last().len() {
            assert(stack.drop_last()[stack.drop_last().len() - pop_count(
                stack.drop_last(),
                parent,
            ) - 1] == stack[stack.len() - pop_count(stack, parent) - 1]);
        }
    }
}

proof fn lemma_climb_shape(cur: PathModel, stop: Option<PathModel>, root: PathModel)
    ensures
        climb_chain(cur, stop, root).len() <= cur.len() + 1,
        forall|k: int|
            0 <= k < climb_chain(cur, stop, root).len() ==> #[trigger] climb_chain(
                cur,
                stop,
                root,
            )[k] == cur.take(cur.len() - k),
    decreases cur.len(),
{
    let chain = climb_chain(cur, stop, root);
    if stop is Some && cur == stop.unwrap() {
    } else if !is_path_prefix(root, cur) {
    } else if cur.len() == 0 {
        assert(chain[0] == cur);
        assert(cur.take(0) =~= cur);
    } else {
        lemma_climb_shape(cur.drop_last(), stop, root);
        let rest = climb_chain(cur.drop_last(), stop, root);
        assert(chain =~= seq![cur] + rest);
        assert forall|k: int| 0 <= k < chain.len() implies #[trigger] chain[k] == cur.take(
            cur.len() - k,
        ) by {
            if k == 0 {
                assert(cur.take(cur.len() as int) =~= cur);
            } else {
                assert(chain[k] == rest[k - 1]);
                assert(rest[k - 1] == cur.drop_last().take(cur.drop_last().len() - (k - 1)));
                assert(cur.drop_last().take(cur.len() - k) =~= cur.take(cur.len() - k));
            }
        }
    }
}

proof fn lemma_climb_under_root(cur: PathModel, stop: Option<PathModel>, root: PathModel)
    ensures
        forall|k: int|
            0 <= k < climb_chain(cur, stop, root).len() ==> is_path_prefix(
                root,
                #[trigger] climb_chain(cur, stop, root)[k],
            ),
    decreases cur.len(),
{
    let chain = climb_chain(cur, stop, root);
    if stop is Some && cur == stop.unwrap() {
    } else if !is_path_prefix(root, cur) {
    } else if cur.len() == 0 {
    } else {
        lemma_climb_under_root(cur.drop_last(), stop, root);
        let rest = climb_chain(cur.drop_last(), stop, root);
        assert(chain =~= seq![cur] + rest);
        assert forall|k: int| 0 <= k < chain.len() implies is_path_prefix(
            root,
            #[trigger] chain[k],
        ) by {
            if k > 0 {
                assert(chain[k] == rest[k - 1]);
            }
        }
    }
}

proof fn lemma_climb_reaches_stop(cur: PathModel, sp: PathModel, root: PathModel)
    requires
        is_path_prefix(sp, cur),
        is_path_prefix(root, sp),
    ensures
        climb_chain(cur, Some(sp), root).len() == cur.len() - sp.len(),
    decreases cur.len(),
{
    if cur.len() == sp.len() {
        assert(sp =~= cur.take(sp.len() as int));
        assert(cur.take(cur.len() as int) =~= cur);
        assert(cur == sp);
    } else {
        assert(cur != sp);
        lemma_prefix_trans(root, sp, cur);
        assert(is_path_prefix(sp, cur.drop_last())) by {
            assert(cur.drop_last().take(sp.len() as int) =~= cur.take(sp.len() as int));
        }
        lemma_climb_reaches_stop(cur.drop_last(), sp, root);
    }
}

/// The invariant the walk rests on: feeding `process` any next path keeps
/// the stack a strict root-to-leaf ancestor chain under the root; a fresh
/// stack starts as one.
pub proof fn lemma_process_preserves_chain(
    root: PathModel,
    stack: Seq<PathModel>,
    parent_opt: Option<PathModel>,
)
    requires
        is_ancestor_chain(stack),
        all_under_root(root, stack),
    ensures
        is_ancestor_chain(process_stack(root, stack, parent_opt)),
        all_under_root(root, process_stack(root, stack, parent_opt)),
{
    match parent_opt {
        None => {
        },
        Some(parent) => {
            lemma_pop_count_bounds(stack, parent);
            let kept = kept_stack(stack, parent);
            let stop: Option<PathModel> = if kept.len() > 0 {
                Some(kept.last())
            } else {
                None
            };
            let chain = climb_chain(parent, stop, root);
            let new = process_stack(root, stack, Some(parent));
            lemma_climb_shape(parent, stop, root);
            lemma_climb_under_root(parent, stop, root);
            assert(new == kept + chain.reverse());
            assert(forall|k: int| 0 <= k < kept.len() ==> #[trigger] kept[k] == stack[k]);
            if kept.len() > 0 {
                assert(kept.last() == stack[kept.len() - 1]);
                assert(is_path_prefix(kept.last(), parent));
                assert(is_path_prefix(root, kept.last()));
                lemma_climb_reaches_stop(parent, kept.last(), root);
                assert(chain.len() == parent.len() - kept.last().len());
            }
            assert forall|i: int, j: int| 0 <= i < j < new.len() implies is_path_prefix(
                #[trigger] new[i],
                #[trigger] new[j],
            ) && new[i].len() < new[j].len() by {
                let c = chain.len() as int;
                let p = parent.len() as int;
                if j < kept.len() {
                    assert(new[i] == stack[i]);
                    assert(new[j] == stack[j]);
                } else {
                    let lj = p - (c - 1 - (j - kept.len()));
                    assert(new[j] == chain[c - 1 - (j - kept.len())]);
                    assert(new[j] == parent.take(lj));
                    assert(new[j].len() == lj);
                    assert(is_path_prefix(new[j], parent));
                    if i < kept.len() {
                        assert(new[i] == stack[i]);
                        assert(is_path_prefix(root, new[j]));
                        assert(kept.last() == stack[kept.len() - 1]);
                        if i < kept.len() - 1 {
                            assert(is_path_prefix(stack[i], kept.last()));
                            assert(stack[i].len() < kept.last().len());
                        }
                        assert(kept.last().len() < lj);
                        lemma_prefix_shorter(kept.last(), new[j], parent);
                        if i < kept.len() - 1 {
                            lemma_prefix_trans(stack[i], kept.last(), new[j]);
                        }
                        assert(is_path_prefix(new[i], new[j]));
                        assert(new[i].len() < new[j].len());
                    } else {
                        let li = p - (c - 1 - (i - kept.len()));
                        assert(new[i] == chain[c - 1 - (i - kept.len())]);
                        assert(new[i] == parent.take(li));
                        assert(new[i].len() == li);
                        assert(li < lj);
                        assert(is_path_prefix(new[i], parent));
                        lemma_prefix_shorter(new[i], new[j], parent);
                    }
                }
            }
            assert forall|k: int| 0 <= k < new.len() implies is_path_prefix(
                root,
                #[trigger] new[k],
            ) by {
                if k < kept.len() {
                    assert(new[k] == stack[k]);
                } else {
                    assert(new[k] == chain[chain.len() - 1 - (k - kept.len())]);
                }
            }
        },
    }
}

proof fn lemma_popped_fail_prefix(stack: Seq<PathModel>, parent: PathModel)
    ensures
        forall|k: int|
            stack.len() - pop_count(stack, parent) <= k < stack.len() ==> !is_path_prefix(
                #[trigger] stack[k],
                parent,
            ),
    decreases stack.len(),
{
    if stack.len() > 0 && !is_path_prefix(stack.last(), parent) {
        lemma_pop_count_bounds(stack, parent);
        lemma_popped_fail_prefix(stack.drop_last(), parent);
        let d = stack.drop_last();
        lemma_pop_count_bounds(d, parent);
        assert forall|k: int|
            stack.len() - pop_count(stack, parent) <= k < stack.len() implies !is_path_prefix(
            #[trigger] stack[k],
            parent,
        ) by {
            if k < stack.len() - 1 {
                assert(stack[k] == d[k]);
            }
        }
    }
}

/// A directory is resolved exactly once, at the moment the walk leaves it:
/// the directories one step hands out for resolution are pairwise distinct,
/// and none of them is still open afterwards.
pub proof fn lemma_resolved_once_per_step(
    root: PathModel,
    stack: Seq<PathModel>,
    parent_opt: Option<PathModel>,
)
    requires
        is_ancestor_chain(stack),
        all_under_root(root, stack),
    ensures
        ({
            let rs = process_resolved(stack, parent_opt);
            let after = process_stack(root, stack, parent_opt);
            (forall|i: int, j: int| 0 <= i < j < rs.len() ==> rs[i] != rs[j]) && (forall|
                i: int,
                k: int,
            |
                0 <= i < rs.len() && 0 <= k < after.len() ==> rs[i] != after[k])
        }),
{
    match parent_opt {
        None => {
            let rs = process_resolved(stack, parent_opt);
            assert forall|i: int, j: int| 0 <= i < j < rs.len() implies rs[i] != rs[j] by {
                assert(rs[i] == stack[stack.len() - 1 - i]);
                assert(rs[j] == stack[stack.len() - 1 - j]);
            }
        },
        Some(parent) => {
            lemma_pop_count_bounds(stack, parent);
            lemma_popped_fail_prefix(stack, parent);
            let rs = process_resolved(stack, parent_opt);
            let after = process_stack(root, stack, parent_opt);
            let pc = pop_count(stack, parent);
            let kept = kept_stack(stack, parent);
            let stop: Option<PathModel> = if kept.len() > 0 {
                Some(kept.last())
            } else {
                None
            };
            let chain = climb_chain(parent, stop, root);
            lemma_climb_shape(parent, stop, root);
            assert forall|i: int, j: int| 0 <= i < j < rs.len() implies rs[i] != rs[j] by {
                assert(rs[i] == stack[stack.len() - 1 - i]);
                assert(rs[j] == stack[stack.len() - 1 - j]);
            }
            assert forall|i: int, k: int|
                0 <= i < rs.len() && 0 <= k < after.len() implies rs[i] != after[k] by {
                assert(rs[i] == stack[stack.len() - 1 - i]);
                assert(!is_path_prefix(rs[i], parent));
                if k < kept.len() {
                    assert(after[k] == stack[k]);
                    assert(stack[k].len() < rs[i].len());
                } else {
                    assert(after[k] == chain[chain.len() - 1 - (k - kept.len())]);
                    assert(after[k] == parent.take(
                        parent.len() - (chain.len() - 1 - (k - kept.len())),
                    ));
                    assert(is_path_prefix(after[k], parent));
                }
            }
        },
    }
}

/// Every ancestor of `q` from `root` down to `q` itself, shortest first:
/// what the stack holds right after a path with parent `q` was processed.
pub open spec fn prefix_range(root: PathModel, q: PathModel) -> Seq<PathModel> {
    Seq::new((q.len() + 1 - root.len()) as nat, |k: int| q.take(root.len() + k))
}

/// The longest ancestor-or-self of `q` that is also an ancestor-or-equal of
/// `parent`: where the pop phase stops.
pub open spec fn deepest_shared(q: PathModel, parent: PathModel) -> PathModel
    decreases q.len(),
{
    if is_path_prefix(q, parent) {
        q
    } else if q.len() == 0 {
        q
    } else {
        deepest_shared(q.drop_last(), parent)
    }
}

proof fn lemma_deepest_shared_props(q: PathModel, parent: PathModel)
    ensures
        is_path_prefix(deepest_shared(q, parent), q),
        deepest_shared(q, parent).len() > 0 || deepest_shared(q, parent) =~= Seq::empty(),
        is_path_prefix(q, parent) ==> deepest_shared(q, parent) == q,
        is_path_prefix(deepest_shared(q, parent), parent) || deepest_shared(q, parent).len() == 0,
    decreases q.len(),
{
    if is_path_prefix(q, parent) {
        assert(q.take(q.len() as int) =~= q);
    } else if q.len() == 0 {
        assert(q.take(q.len() as int) =~= q);
    } else {
        lemma_deepest_shared_props(q.drop_last(), parent);
        let d = deepest_shared(q.drop_last(), parent);
        assert(q.take(d.len() as int) =~= q.drop_last().take(d.len() as int));
    }
}

proof fn lemma_pop_prefix_range(root: PathModel, q: PathModel, parent: PathModel)
    requires
        is_path_prefix(root, q),
        is_path_prefix(root, parent),
    ensures
        kept_stack(prefix_range(root, q), parent) == prefix_range(
            root,
            deepest_shared(q, parent),
        ),
        is_path_prefix(root, deepest_shared(q, parent)),
        is_path_prefix(deepest_shared(q, parent), parent),
    decreases q.len(),
{
    let st = prefix_range(root, q);
    assert(st.len() == q.len() + 1 - root.len());
    assert(st.last() == q.take(q.len() as int));
    assert(q.take(q.len() as int) =~= q);
    if is_path_prefix(q, parent) {
        assert(pop_count(st, parent) == 0);
        assert(kept_stack(st, parent) =~= st);
        assert(deepest_shared(q, parent) == q);
    } else if q.len() == root.len() {
        assert(q =~= root);
        assert(is_path_prefix(q, parent));
        assert(false);
    } else {
        assert(is_path_prefix(root, q.drop_last())) by {
            assert(q.drop_last().take(root.len() as int) =~= q.take(root.len() as int));
        }
        lemma_pop_prefix_range(root, q.drop_last(), parent);
        assert(st.drop_last() =~= prefix_range(root, q.drop_last())) by {
            assert forall|k: int| 0 <= k < st.len() - 1 implies st.drop_last()[k]
                == prefix_range(root, q.drop_last())[k] by {
                assert(st[k] == q.take(root.len() + k));
                assert(q.drop_last().take(root.len() + k) =~= q.take(root.len() + k));
            }
        }
        assert(pop_count(st, parent) == 1 + pop_count(st.drop_last(), parent));
        lemma_pop_count_bounds(st.drop_last(), parent);
        assert(kept_stack(st, parent) =~= kept_stack(st.drop_last(), parent)) by {
            assert forall|k: int|
                0 <= k < st.len() - 1 - pop_count(st.drop_last(), parent) implies st[k]
                == st.drop_last()[k] by {
            }
        }
        assert(deepest_shared(q, parent) == deepest_shared(q.drop_last(), parent));
    }
}

/// The state machine's defining invariant, in full: when the stack
/// holds exactly the open ancestors of the previous parent, one step leaves
/// it holding exactly the open ancestors of the new parent.
pub proof fn lemma_stack_tracks_parent(root: PathModel, q: PathModel, parent: PathModel)
    requires
        is_path_prefix(root, q),
        is_path_prefix(root, parent),
    ensures
        process_stack(root, prefix_range(root, q), Some(parent)) == prefix_range(root, parent),
{
    let st = prefix_range(root, q);
    lemma_pop_prefix_range(root, q, parent);
    let c = deepest_shared(q, parent);
    let kept = kept_stack(st, parent);
    assert(kept == prefix_range(root, c));
    assert(kept.len() == c.len() + 1 - root.len());
    assert(kept.len() > 0);
    assert(kept.last() == c.take(c.len() as int));
    assert(c.take(c.len() as int) =~= c);
    let stop = Some(kept.last());
    let chain = climb_chain(parent, stop, root);
    lemma_climb_shape(parent, stop, root);
    lemma_climb_reaches_stop(parent, c, root);
    assert(chain.len() == parent.len() - c.len());
    let new = process_stack(root, st, Some(parent));
    assert(new == kept + chain.reverse());
    assert(new.len() == parent.len() + 1 - root.len());
    assert forall|k: int| 0 <= k < new.len() implies new[k] == prefix_range(root, parent)[k] by {
        assert(prefix_range(root, parent)[k] == parent.take(root.len() + k));
        if k < kept.len() {
            assert(new[k] == kept[k]);
            assert(kept[k] == c.take(root.len() + k));
            assert(is_path_prefix(c, parent));
            assert(c.take(root.len() + k) =~= parent.take(root.len() + k));
        } else {
            assert(new[k] == chain.reverse()[k - kept.len()]);
            assert(chain.reverse()[k - kept.len()] == chain[chain.len() - 1 - (k - kept.len())]);
            assert(chain[chain.len() - 1 - (k - kept.len())] == parent.take(
                parent.len() - (chain.len() - 1 - (k - kept.len())),
            ));
            assert(parent.len() - (chain.len() - 1 - (k - kept.len())) == root.len() + k);
        }
    }
    assert(new =~= prefix_range(root, parent));
}

/// What the walk asks of its upstream iterator, stated of the paths still
/// to come when the stack tracks `q` (the parent of the last path):
/// every path lies strictly under the root, none is an ancestor of another
/// or of `q`, and once a subtree is left it is never re-entered.
pub open spec fn traversal_wf(root: PathModel, q: PathModel, paths: Seq<PathModel>) -> bool {
    &&& is_path_prefix(root, q)
    &&& (forall|i: int|
        0 <= i < paths.len() ==> is_path_prefix(root, #[trigger] paths[i]) && paths[i].len()
            > root.len())
    &&& (forall|i: int| 0 <= i < paths.len() ==> !is_path_prefix(#[trigger] paths[i], q))
    &&& (forall|i: int, j: int|
        0 <= i < paths.len() && 0 <= j < paths.len() && i != j ==> !is_path_prefix(
            #[trigger] paths[i],
            #[trigger] paths[j],
        ))
    &&& (forall|d: PathModel, j: int|
        0 <= j < paths.len() && is_path_prefix(d, q) && #[trigger] is_path_prefix(d, paths[j])
            ==> (forall|m: int| 0 <= m < j ==> #[trigger] is_path_prefix(d, paths[m])))
    &&& (forall|d: PathModel, i: int, j: int|
        0 <= i < j < paths.len() && #[trigger] is_path_prefix(d, paths[i])
            && #[trigger] is_path_prefix(d, paths[j]) ==> (forall|m: int|
            i < m < j ==> #[trigger] is_path_prefix(d, paths[m])))
}

/// Every directory the rest of the walk resolves, in resolution order: the
/// pop phase of each remaining path in turn, then the end-of-walk flush.
pub open spec fn run_resolved(root: PathModel, q: PathModel, paths: Seq<PathModel>) -> Seq<
    PathModel,
>
    decreases paths.len(),
{
    if paths.len() == 0 {
        prefix_range(root, q).reverse()
    } else {
        process_resolved(prefix_range(root, q), Some(paths[0].drop_last())) + run_resolved(
            root,
            paths[0].drop_last(),
            paths.drop_first(),
        )
    }
}

proof fn lemma_traversal_wf_step(root: PathModel, q: PathModel, paths: Seq<PathModel>)
    requires
        traversal_wf(root, q, paths),
        paths.len() > 0,
    ensures
        traversal_wf(root, paths[0].drop_last(), paths.drop_first()),
{
    let q2 = paths[0].drop_last();
    let rest = paths.drop_first();
    assert(is_path_prefix(root, q2)) by {
        assert(q2.take(root.len() as int) =~= paths[0].take(root.len() as int));
    }
    assert forall|i: int| 0 <= i < rest.len() implies !is_path_prefix(
        #[trigger] rest[i],
        q2,
    ) by {
        assert(rest[i] == paths[i + 1]);
        if is_path_prefix(rest[i], q2) {
            lemma_prefix_trans(rest[i], q2, paths[0]);
        }
    }
    assert forall|d: PathModel, j: int|
        0 <= j < rest.len() && is_path_prefix(d, q2) && #[trigger] is_path_prefix(
            d,
            rest[j],
        ) implies (forall|m: int| 0 <= m < j ==> #[trigger] is_path_prefix(d, rest[m])) by {
        lemma_prefix_trans(d, q2, paths[0]);
        assert(rest[j] == paths[j + 1]);
        assert forall|m: int| 0 <= m < j implies #[trigger] is_path_prefix(d, rest[m]) by {
            assert(rest[m] == paths[m + 1]);
            assert(is_path_prefix(d, paths[0]));
            assert(is_path_prefix(d, paths[j + 1]));
        }
    }
    assert forall|d: PathModel, i: int, j: int|
        0 <= i < j < rest.len() && #[trigger] is_path_prefix(d, rest[i])
            && #[trigger] is_path_prefix(d, rest[j]) implies (forall|m: int|
        i < m < j ==> #[trigger] is_path_prefix(d, rest[m])) by {
        assert(rest[i] == paths[i + 1]);
        assert(rest[j] == paths[j + 1]);
        assert forall|m: int| i < m < j implies #[trigger] is_path_prefix(d, rest[m]) by {
            assert(rest[m] == paths[m + 1]);
        }
    }
}

proof fn lemma_run_resolved_membership(
    root: PathModel,
    q: PathModel,
    paths: Seq<PathModel>,
    e: PathModel,
)
    requires
        is_path_prefix(root, q),
        forall|i: int|
            0 <= i < paths.len() ==> is_path_prefix(root, #[trigger] paths[i]) && paths[i].len()
                > root.len(),
        run_resolved(root, q, paths).contains(e),
    ensures
        is_path_prefix(e, q) || exists|j: int|
            0 <= j < paths.len() && is_path_prefix(e, #[trigger] paths[j]),
    decreases paths.len(),
{
    let rr = run_resolved(root, q, paths);
    let k = choose|k: int| 0 <= k < rr.len() && rr[k] == e;
    if paths.len() == 0 {
        assert(e == prefix_range(root, q)[prefix_range(root, q).len() - 1 - k]);
        assert(e == q.take(root.len() + (prefix_range(root, q).len() - 1 - k)));
        assert(is_path_prefix(e, q)) by {
            assert(q.take(e.len() as int) =~= e);
        }
    } else {
        let st = prefix_range(root, q);
        let popped = process_resolved(st, Some(paths[0].drop_last()));
        lemma_pop_count_bounds(st, paths[0].drop_last());
        if k < popped.len() {
            assert(e == st[st.len() - 1 - k]);
            assert(e == q.take(root.len() + (st.len() - 1 - k)));
            assert(is_path_prefix(e, q)) by {
                assert(q.take(e.len() as int) =~= e);
            }
        } else {
            let rest = run_resolved(root, paths[0].drop_last(), paths.drop_first());
            assert(rest[k - popped.len()] == e);
            assert(rest.contains(e));
            assert(is_path_prefix(root, paths[0].drop_last())) by {
                assert(paths[0].drop_last().take(root.len() as int) =~= paths[0].take(
                    root.len() as int,
                ));
            }
            lemma_run_resolved_membership(root, paths[0].drop_last(), paths.drop_first(), e);
            if is_path_prefix(e, paths[0].drop_last()) {
                lemma_prefix_trans(e, paths[0].drop_last(), paths[0]);
                assert(is_path_prefix(e, paths[0]));
            } else {
                let j = choose|j: int|
                    0 <= j < paths.drop_first().len() && is_path_prefix(
                        e,
                        #[trigger] paths.drop_first()[j],
                    );
                assert(paths.drop_first()[j] == paths[j + 1]);
                assert(is_path_prefix(e, paths[j + 1]));
            }
        }
    }
}

/// The walk's central theorem: under a non-revisiting traversal, every
/// directory is resolved exactly once — no two entries of the resolution
/// sequence coincide.
pub proof fn lemma_directories_resolve_once(
    root: PathModel,
    q: PathModel,
    paths: Seq<PathModel>,
)
    requires
        traversal_wf(root, q, paths),
    ensures
        forall|i: int, j: int|
            0 <= i < j < run_resolved(root, q, paths).len() ==> #[trigger] run_resolved(
                root,
                q,
                paths,
            )[i] != #[trigger] run_resolved(root, q, paths)[j],
    decreases paths.len(),
{
    let rr = run_resolved(root, q, paths);
    if paths.len() == 0 {
        let pr = prefix_range(root, q);
        assert forall|i: int, j: int| 0 <= i < j < rr.len() implies #[trigger] rr[i]
            != #[trigger] rr[j] by {
            assert(rr[i] == pr[pr.len() - 1 - i]);
            assert(rr[j] == pr[pr.len() - 1 - j]);
            assert(rr[i].len() != rr[j].len());
        }
    } else {
        let parent = paths[0].drop_last();
        let st = prefix_range(root, q);
        let popped = process_resolved(st, Some(parent));
        let rest = run_resolved(root, parent, paths.drop_first());
        lemma_pop_count_bounds(st, parent);
        lemma_popped_fail_prefix(st, parent);
        lemma_traversal_wf_step(root, q, paths);
        lemma_directories_resolve_once(root, parent, paths.drop_first());
        assert(rr =~= popped + rest);
        assert forall|i: int, j: int| 0 <= i < j < rr.len() implies #[trigger] rr[i]
            != #[trigger] rr[j] by {
            if j < popped.len() {
                assert(rr[i] == st[st.len() - 1 - i]);
                assert(rr[j] == st[st.len() - 1 - j]);
                assert(rr[i] == q.take(root.len() + (st.len() - 1 - i)));
                assert(rr[j] == q.take(root.len() + (st.len() - 1 - j)));
                assert(rr[i].len() != rr[j].len());
            } else if i >= popped.len() {
                assert(rr[i] == rest[i - popped.len()]);
                assert(rr[j] == rest[j - popped.len()]);
            } else {
                let d = rr[i];
                assert(d == st[st.len() - 1 - i]);
                assert(d == q.take(root.len() + (st.len() - 1 - i)));
                assert(is_path_prefix(d, q)) by {
                    assert(q.take(d.len() as int) =~= d);
                }
                assert(!is_path_prefix(d, parent));
                let e = rr[j];
                assert(e == rest[j - popped.len()]);
                assert(rest.contains(e));
                assert(is_path_prefix(root, parent)) by {
                    assert(parent.take(root.len() as int) =~= paths[0].take(root.len() as int));
                }
                lemma_run_resolved_membership(root, parent, paths.drop_first(), e);
                if d == e {
                    if is_path_prefix(e, parent) {
                        assert(false);
                    } else {
                        let jj = choose|jj: int|
                            0 <= jj < paths.drop_first().len() && is_path_prefix(
                                e,
                                #[trigger] paths.drop_first()[jj],
                            );
                        assert(paths.drop_first()[jj] == paths[jj + 1]);
                        assert(is_path_prefix(d, paths[jj + 1]));
                        assert(is_path_prefix(d, paths[0]));
                        if d.len() <= parent.len() {
                            assert(parent.take(d.len() as int) =~= paths[0].take(
                                d.len() as int,
                            ));
                            assert(is_path_prefix(d, parent));
                        }
                        assert(d.len() > parent.len());
                        assert(d.len() == paths[0].len());
                        assert(d == paths[0]) by {
                            assert(paths[0].take(paths[0].len() as int) =~= paths[0]);
                        }
                        assert(!is_path_prefix(paths[0], q));
                        assert(false);
                    }
                }
            }
        }
    }
}

/// A directory is resolved only once every descendant the walk will ever
/// produce has already passed through: when the walk moving to the next
/// path closes a directory, no remaining path lies under it.
pub proof fn lemma_resolution_closes_subtree(
    root: PathModel,
    q: PathModel,
    paths: Seq<PathModel>,
)
    requires
        traversal_wf(root, q, paths),
        paths.len() > 0,
    ensures
        ({
            let popped = process_resolved(prefix_range(root, q), Some(paths[0].drop_last()));
            forall|i: int, j: int|
                0 <= i < popped.len() && 0 <= j < paths.len() ==> !is_path_prefix(
                    #[trigger] popped[i],
                    #[trigger] paths[j],
                )
        }),
{
    let parent = paths[0].drop_last();
    let st = prefix_range(root, q);
    let popped = process_resolved(st, Some(parent));
    lemma_pop_count_bounds(st, parent);
    lemma_popped_fail_prefix(st, parent);
    assert forall|i: int, j: int|
        0 <= i < popped.len() && 0 <= j < paths.len() implies !is_path_prefix(
        #[trigger] popped[i],
        #[trigger] paths[j],
    ) by {
        let d = popped[i];
        assert(d == st[st.len() - 1 - i]);
        assert(d == q.take(root.len() + (st.len() - 1 - i)));
        assert(is_path_prefix(d, q)) by {
            assert(q.take(d.len() as int) =~= d);
        }
        assert(!is_path_prefix(d, parent));
        if is_path_prefix(d, paths[j]) {
            assert(is_path_prefix(d, paths[0]));
            if d.len() <= parent.len() {
                assert(parent.take(d.len() as int) =~= paths[0].take(d.len() as int));
                assert(is_path_prefix(d, parent));
            }
            assert(d.len() > parent.len());
            assert(d.len() == paths[0].len());
            assert(d == paths[0]) by {
                assert(paths[0].take(paths[0].len() as int) =~= paths[0]);
            }
            assert(!is_path_prefix(paths[0], q));
            assert(false);
        }
    }
}

} // verus!
