use std::collections::HashMap;
use vstd::prelude::*;
use crate::interner::Atom;

verus! {

broadcast use vstd::std_specs::hash::group_hash_axioms;

/// One distinct call-stack prefix: the function at its top and the frame of
/// the prefix one shorter, if any.
#[derive(Clone, Copy, Debug, PartialEq, Eq, Structural)]
pub struct StackFrame {
    pub name: Atom,
    pub parent: Option<usize>,
}

/// The call stack that frame `i` stands for, read along its parents.
pub open spec fn path(f: Seq<StackFrame>, i: int) -> Seq<Atom>
    decreases i,
{
    if 0 <= i < f.len() {
        match f[i].parent {
            Some(p) => if 0 <= p < i {
                path(f, p as int).push(f[i].name)
            } else {
                seq![f[i].name]
            },
            None => seq![f[i].name],
        }
    } else {
        Seq::empty()
    }
}

/// Whether some frame of `f` stands for the stack `s`.
pub open spec fn has_path(f: Seq<StackFrame>, s: Seq<Atom>) -> bool {
    exists|i: int| 0 <= i < f.len() && path(f, i) == s
}

/// Parents come before their children, and no two frames stand for the same
/// stack.
pub open spec fn frames_wf(f: Seq<StackFrame>) -> bool {
    &&& forall|i: int|
        0 <= i < f.len() ==> match #[trigger] f[i].parent {
            Some(p) => p < i,
            None => true,
        }
    &&& forall|i: int, j: int|
        0 <= i < f.len() && 0 <= j < f.len() && i != j ==> #[trigger] path(f, i) != #[trigger] path(
            f,
            j,
        )
}

/// What resolving `stack[..depth]` does to a frame table `before`: frames are
/// only appended, each new one stands for a prefix of that stack, every
/// non-empty prefix of it then has a frame, the result is the frame of the
/// whole prefix (none for the empty one), and a table that already had it is
/// left as it was. The new frames are the longest prefixes of `stack[..depth]`,
/// shortest first, so a prefix that was missing gets the last id; the frame of a single call has no parent, and
/// that of a deeper prefix has the frame of the prefix one shorter.
pub open spec fn resolve_post(
    before: Seq<StackFrame>,
    after: Seq<StackFrame>,
    stack: Seq<Atom>,
    depth: int,
    r: Option<usize>,
) -> bool {
    &&& before.len() <= after.len()
    &&& after.subrange(0, before.len() as int) == before
    &&& forall|i: int|
        before.len() <= i < after.len() ==> exists|k: int|
            1 <= k <= depth && #[trigger] path(after, i) == stack.subrange(0, k)
    &&& forall|k: int| 1 <= k <= depth ==> has_path(after, #[trigger] stack.subrange(0, k))
    &&& depth == 0 ==> r is None && after == before
    &&& depth > 0 ==> r is Some && r->0 < after.len() && path(after, r->0 as int)
        == stack.subrange(0, depth)
    &&& has_path(before, stack.subrange(0, depth)) ==> after == before
    &&& forall|i: int|
        before.len() <= i < after.len() ==> #[trigger] path(after, i) == stack.subrange(
            0,
            depth - (after.len() - 1 - i),
        )
    &&& forall|i: int, j: int|
        before.len() <= i < j < after.len() ==> #[trigger] path(after, i).len() < #[trigger] path(
            after,
            j,
        ).len()
    &&& depth > 0 && !has_path(before, stack.subrange(0, depth)) ==> r->0 == after.len() - 1
    &&& depth == 1 ==> after[r->0 as int].parent is None
    &&& depth > 1 ==> (after[r->0 as int].parent matches Some(p) && p < r->0 && path(
        after,
        p as int,
    ) == stack.subrange(0, depth - 1))
}

/// The stacks that the frames of `f` stand for.
pub open spec fn stacks_of(f: Seq<StackFrame>) -> Set<Seq<Atom>> {
    Set::new(|s: Seq<Atom>| has_path(f, s))
}

/// The non-empty prefixes of `stack[..depth]`.
pub open spec fn prefixes(stack: Seq<Atom>, depth: int) -> Set<Seq<Atom>> {
    Set::new(|s: Seq<Atom>| exists|k: int| 1 <= k <= depth && s == stack.subrange(0, k))
}

pub open spec fn frame_key(parent: Option<usize>, name: Atom) -> u128 {
    let pk: int = match parent {
        Some(p) => p + 1,
        None => 0,
    };
    (pk * 0x1_0000_0000_0000_0000 + name.index()) as u128
}

/// The frames met so far, each with a stable id (its position), and an index
/// from (parent, name) to id.
pub struct FrameTree {
    frames: Vec<StackFrame>,
    index: HashMap<u128, usize>,
}

impl View for FrameTree {
    type V = Seq<StackFrame>;

    closed spec fn view(&self) -> Seq<StackFrame> {
        self.frames@
    }
}

proof fn lemma_key_injective(p: Option<usize>, a: Atom, q: Option<usize>, b: Atom)
    requires
        frame_key(p, a) == frame_key(q, b),
        p matches Some(x) ==> x < usize::MAX,
        q matches Some(x) ==> x < usize::MAX,
    ensures
        p == q,
        a == b,
{
    let pk: int = match p {
        Some(x) => x + 1,
        None => 0,
    };
    let qk: int = match q {
        Some(x) => x + 1,
        None => 0,
    };
    let m: int = 0x1_0000_0000_0000_0000;
    let x = a.index() as int;
    let y = b.index() as int;
    assert(0 <= x < m && 0 <= y < m && 0 <= pk && 0 <= qk && pk < m && qk < m);
    assert(pk * m + x < 0x1_0000_0000_0000_0000_0000_0000_0000_0000) by (nonlinear_arith)
        requires
            0 <= x < m,
            0 <= pk < m,
            m == 0x1_0000_0000_0000_0000,
    ;
    assert(qk * m + y < 0x1_0000_0000_0000_0000_0000_0000_0000_0000) by (nonlinear_arith)
        requires
            0 <= y < m,
            0 <= qk < m,
            m == 0x1_0000_0000_0000_0000,
    ;
    assert(pk * m + x == qk * m + y);
    assert(pk == qk && x == y) by (nonlinear_arith)
        requires
            pk * m + x == qk * m + y,
            0 <= x < m,
            0 <= y < m,
            m > 0,
    ;
    assert(a == b);
}

/// A path depends only on the frames up to its own: appending frames leaves
/// the stacks of the earlier ones as they were.
pub proof fn lemma_path_stable(f: Seq<StackFrame>, g: Seq<StackFrame>, i: int)
    requires
        0 <= i < f.len() <= g.len(),
        g.subrange(0, f.len() as int) == f,
    ensures
        path(g, i) == path(f, i),
    decreases i,
{
    assert(g[i] == f[i]);
    match f[i].parent {
        Some(p) => if 0 <= p < i {
            lemma_path_stable(f, g, p as int);
        },
        None => {},
    }
}

proof fn lemma_path_len(f: Seq<StackFrame>, i: int)
    requires
        frames_wf(f),
        0 <= i < f.len(),
    ensures
        path(f, i).len() >= 1,
        path(f, i).last() == f[i].name,
        f[i].parent is None ==> path(f, i).len() == 1,
        f[i].parent matches Some(p) ==> path(f, i).drop_last() == path(f, p as int) && path(
            f,
            p as int,
        ).len() >= 1,
    decreases i,
{
    match f[i].parent {
        Some(p) => {
            lemma_path_len(f, p as int);
        },
        None => {},
    }
}

/// Each non-empty prefix of a frame's stack has a frame of its own.
proof fn lemma_prefix_closed(f: Seq<StackFrame>, i: int, k: int)
    requires
        frames_wf(f),
        0 <= i < f.len(),
        1 <= k <= path(f, i).len(),
    ensures
        has_path(f, path(f, i).subrange(0, k)),
    decreases i,
{
    lemma_path_len(f, i);
    if k == path(f, i).len() {
        assert(path(f, i).subrange(0, k) == path(f, i));
    } else {
        let p = f[i].parent->0 as int;
        assert(path(f, i).subrange(0, k) == path(f, p).subrange(0, k));
        lemma_prefix_closed(f, p, k);
    }
}

/// Where no frame has the given parent and name, no frame stands for the
/// parent's stack extended by that name.
proof fn lemma_absent_key(f: Seq<StackFrame>, parent: Option<usize>, name: Atom, s: Seq<Atom>)
    requires
        frames_wf(f),
        f.len() <= usize::MAX,
        forall|j: int|
            0 <= j < f.len() ==> frame_key(f[j].parent, f[j].name) != frame_key(parent, name),
        parent is None ==> s == seq![name],
        parent matches Some(p) ==> p < f.len() && s == path(f, p as int).push(name),
    ensures
        !has_path(f, s),
{
    if has_path(f, s) {
        let j = choose|j: int| 0 <= j < f.len() && path(f, j) == s;
        lemma_path_len(f, j);
        match parent {
            Some(p) => {
                lemma_path_len(f, p as int);
                match f[j].parent {
                    Some(q) => {
                        assert(path(f, q as int) == path(f, p as int));
                        assert(q == p);
                    },
                    None => {},
                }
            },
            None => {
                match f[j].parent {
                    Some(q) => {
                        lemma_path_len(f, q as int);
                    },
                    None => {},
                }
            },
        }
        assert(frame_key(f[j].parent, f[j].name) == frame_key(parent, name));
    }
}

impl FrameTree {
    pub closed spec fn wf(&self) -> bool {
        &&& frames_wf(self.frames@)
        &&& forall|i: int|
            0 <= i < self.frames@.len() ==> {
                &&& self.index@.contains_key(
                    #[trigger] frame_key(self.frames@[i].parent, self.frames@[i].name),
                )
                &&& self.index@[frame_key(self.frames@[i].parent, self.frames@[i].name)] == i
            }
        &&& forall|k: u128|
            #[trigger] self.index@.contains_key(k) ==> {
                &&& self.index@[k] < self.frames@.len()
                &&& k == frame_key(
                    self.frames@[self.index@[k] as int].parent,
                    self.frames@[self.index@[k] as int].name,
                )
            }
    }

    pub fn new() -> (r: FrameTree)
        ensures
            r.wf(),
            frames_wf(r@),
            r@ == Seq::<StackFrame>::empty(),
    {
        FrameTree { frames: Vec::new(), index: HashMap::new() }
    }

    /// The frame of `stack[..depth]`, added with any missing ancestors where
    /// it is new; `None` stands for the empty stack.
    pub fn resolve(&mut self, stack: &[Atom], depth: usize) -> (r: Option<usize>)
        requires
            old(self).wf(),
            depth <= stack@.len(),
        ensures
            final(self).wf(),
            frames_wf(final(self)@),
            resolve_post(old(self)@, final(self)@, stack@, depth as int, r),
            forall|i: int|
                old(self)@.len() <= i < final(self)@.len() ==> stack@.contains(
                    #[trigger] final(self)@[i].name,
                ),
    {
        let ghost before = self.frames@;
        let mut parent: Option<usize> = None;
        let mut k: usize = 0;
        while k < depth
            invariant
                self.wf(),
                depth <= stack@.len(),
                k <= depth,
                before.len() <= self.frames@.len(),
                self.frames@.subrange(0, before.len() as int) == before,
                forall|i: int|
                    before.len() <= i < self.frames@.len() ==> exists|m: int|
                        1 <= m <= k && #[trigger] path(self.frames@, i) == stack@.subrange(0, m),
                forall|m: int| 1 <= m <= k ==> has_path(self.frames@, #[trigger] stack@.subrange(0, m)),
                k == 0 ==> parent is None && self.frames@ == before,
                k > 0 ==> parent is Some && parent->0 < self.frames@.len() && path(
                    self.frames@,
                    parent->0 as int,
                ) == stack@.subrange(0, k as int),
                has_path(before, stack@.subrange(0, depth as int)) ==> self.frames@ == before,
                forall|i: int|
                    before.len() <= i < self.frames@.len() ==> stack@.contains(
                        #[trigger] self.frames@[i].name,
                    ),
                forall|i: int|
                    before.len() <= i < self.frames@.len() ==> #[trigger] path(
                        self.frames@,
                        i,
                    ).len() <= k,
                forall|i: int, j: int|
                    before.len() <= i < j < self.frames@.len() ==> #[trigger] path(
                        self.frames@,
                        i,
                    ).len() < #[trigger] path(self.frames@, j).len(),
                forall|i: int|
                    before.len() <= i < self.frames@.len() ==> #[trigger] path(self.frames@, i)
                        == stack@.subrange(0, k - (self.frames@.len() - 1 - i)),
                k > 0 && !has_path(before, stack@.subrange(0, k as int)) ==> parent->0
                    == self.frames@.len() - 1,
            decreases depth - k,
        {
            let name = stack[k];
            let pk: u128 = match parent {
                Some(p) => p as u128 + 1,
                None => 0,
            };
            assert(self.frames@.len() == self.frames.len());
            assert(pk <= usize::MAX);
            assert(pk * 0x1_0000_0000_0000_0000 + name.index() <= u128::MAX) by (nonlinear_arith)
                requires
                    pk <= 0xffff_ffff_ffff_ffff,
                    name.index() <= 0xffff_ffff_ffff_ffff,
            ;
            let key: u128 = pk * 0x1_0000_0000_0000_0000 + name.id() as u128;
            assert(key == frame_key(parent, name));
            let ghost f0 = self.frames@;
            let ghost idx0 = self.index@;
            let ghost next = stack@.subrange(0, k + 1);
            assert(k == 0 ==> next == seq![name]);
            assert(k > 0 ==> next == stack@.subrange(0, k as int).push(name));
            match self.index.get(&key) {
                Some(found) => {
                    let id = *found;
                    proof {
                        lemma_key_injective(f0[id as int].parent, f0[id as int].name, parent, name);
                        lemma_path_len(f0, id as int);
                        assert(path(f0, id as int) == next);
                        if f0.len() > before.len() {
                            let last = f0.len() - 1;
                            assert(path(f0, last) == stack@.subrange(0, k as int));
                            if id < before.len() {
                                lemma_path_stable(before, f0, id as int);
                                lemma_prefix_closed(before, id as int, k as int);
                                assert(path(before, id as int).subrange(0, k as int)
                                    == stack@.subrange(0, k as int));
                                let j = choose|j: int|
                                    0 <= j < before.len() && path(before, j) == stack@.subrange(
                                        0,
                                        k as int,
                                    );
                                lemma_path_stable(before, f0, j);
                                assert(path(f0, j) == path(f0, last));
                            } else {
                                assert(path(f0, id as int).len() <= k);
                            }
                        }
                        if !has_path(before, next) {
                            if id < before.len() {
                                lemma_path_stable(before, f0, id as int);
                                assert(path(before, id as int) == next);
                            } else {
                                assert(path(f0, id as int).len() <= k);
                            }
                        }
                    }
                    parent = Some(id);
                },
                None => {
                    let id = self.frames.len();
                    proof {
                        assert forall|j: int| 0 <= j < f0.len() implies frame_key(
                            f0[j].parent,
                            f0[j].name,
                        ) != frame_key(parent, name) by {
                            assert(self.index@.contains_key(frame_key(f0[j].parent, f0[j].name)));
                        }
                        lemma_absent_key(f0, parent, name, next);
                        if has_path(before, stack@.subrange(0, depth as int)) {
                            let j = choose|j: int|
                                0 <= j < before.len() && path(before, j) == stack@.subrange(
                                    0,
                                    depth as int,
                                );
                            lemma_prefix_closed(before, j, k + 1);
                            assert(path(before, j).subrange(0, k + 1) == next);
                        }
                    }
                    self.frames.push(StackFrame { name, parent });
                    proof {
                        assert(stack@[k as int] == name);
                        assert forall|i: int| before.len() <= i < self.frames@.len() implies stack@.contains(
                            #[trigger] self.frames@[i].name,
                        ) by {
                            if i < id {
                                assert(self.frames@[i] == f0[i]);
                            } else {
                                assert(self.frames@[i].name == stack@[k as int]);
                            }
                        }
                    }
                    self.index.insert(key, id);
                    proof {
                        let f1 = self.frames@;
                        assert(f1.subrange(0, f0.len() as int) == f0);
                        assert forall|i: int| 0 <= i < f0.len() implies path(f1, i) == path(f0, i) by {
                            lemma_path_stable(f0, f1, i);
                        }
                        assert(path(f1, id as int) == next);
                        assert(next.len() == k + 1);
                        assert forall|i: int| before.len() <= i < f1.len() implies #[trigger] path(
                            f1,
                            i,
                        ) == stack@.subrange(0, k + 1 - (f1.len() - 1 - i)) by {
                            if i < id {
                                assert(path(f1, i) == path(f0, i));
                            }
                        }
                        assert forall|i: int, j: int|
                            0 <= i < f1.len() && 0 <= j < f1.len() && i != j implies #[trigger] path(
                                f1,
                                i,
                            ) != #[trigger] path(f1, j) by {
                            if i < id && j < id {
                                assert(path(f0, i) != path(f0, j));
                            } else if i < id {
                                assert(path(f1, i) == path(f0, i));
                            } else {
                                assert(path(f1, j) == path(f0, j));
                            }
                        }
                        assert forall|k2: u128| #[trigger] self.index@.contains_key(k2) implies {
                            &&& self.index@[k2] < f1.len()
                            &&& k2 == frame_key(
                                f1[self.index@[k2] as int].parent,
                                f1[self.index@[k2] as int].name,
                            )
                        } by {
                            if k2 != key {
                                assert(idx0.contains_key(k2));
                                assert(f1[idx0[k2] as int] == f0[idx0[k2] as int]);
                            }
                        }
                    }
                    parent = Some(id);
                },
            }
            k = k + 1;
        }
        proof {
            assert(k == depth);
            if depth > 0 {
                assert(stack@.subrange(0, depth as int) == stack@.subrange(0, k as int));
                let f = self.frames@;
                let id = parent->0 as int;
                lemma_path_len(f, id);
                match f[id].parent {
                    Some(p) => {
                        lemma_path_len(f, p as int);
                        assert(path(f, id).drop_last() == stack@.subrange(0, depth - 1));
                    },
                    None => {},
                }
            }
        }
        parent
    }

    /// The number of frames.
    pub fn len(&self) -> (r: usize)
        ensures
            r == self@.len(),
    {
        self.frames.len()
    }

    /// The frames, in the order of their ids.
    pub fn frames(&self) -> (r: &Vec<StackFrame>)
        ensures
            r@ == self@,
    {
        &self.frames
    }
}

proof fn lemma_count_stacks(f: Seq<StackFrame>)
    requires
        frames_wf(f),
    ensures
        stacks_of(f).finite(),
        stacks_of(f).len() == f.len(),
{
    let ps = Seq::new(f.len(), |i: int| path(f, i));
    assert(ps.no_duplicates()) by {
        assert forall|i: int, j: int| 0 <= i < ps.len() && 0 <= j < ps.len() && i != j implies ps[i]
            != ps[j] by {
            assert(path(f, i) != path(f, j));
        }
    }
    ps.unique_seq_to_set();
    assert forall|s: Seq<Atom>| ps.to_set().contains(s) <==> stacks_of(f).contains(s) by {
        if stacks_of(f).contains(s) {
            let i = choose|i: int| 0 <= i < f.len() && path(f, i) == s;
            assert(ps[i] == s);
        }
    }
    assert(ps.to_set() =~= stacks_of(f));
}

/// The frame table holds one entry for each distinct stack prefix met: after
/// resolving `stack[..depth]` the frames stand for the stacks they stood for
/// before together with the non-empty prefixes of `stack[..depth]`, one
/// frame for each, and the table has not shrunk.
pub proof fn lemma_frames_count_prefixes(
    before: Seq<StackFrame>,
    after: Seq<StackFrame>,
    stack: Seq<Atom>,
    depth: int,
    r: Option<usize>,
)
    requires
        frames_wf(after),
        resolve_post(before, after, stack, depth, r),
    ensures
        stacks_of(after) == stacks_of(before).union(prefixes(stack, depth)),
        stacks_of(after).finite(),
        after.len() == stacks_of(after).len(),
        before.len() <= after.len(),
{
    let f = after;
    assert forall|i: int| 0 <= i < before.len() implies path(f, i) == path(before, i) by {
        lemma_path_stable(before, f, i);
    }
    assert forall|s: Seq<Atom>| #[trigger] stacks_of(f).contains(s) <==> stacks_of(before).union(
        prefixes(stack, depth),
    ).contains(s) by {
        if has_path(f, s) {
            let i = choose|i: int| 0 <= i < f.len() && path(f, i) == s;
            if i < before.len() {
                assert(has_path(before, s));
            } else {
                assert(exists|k: int| 1 <= k <= depth && #[trigger] path(f, i) == stack.subrange(0, k));
            }
        }
        if has_path(before, s) {
            let i = choose|i: int| 0 <= i < before.len() && path(before, i) == s;
            assert(path(f, i) == s);
        }
        if prefixes(stack, depth).contains(s) {
            let k = choose|k: int| 1 <= k <= depth && s == stack.subrange(0, k);
            assert(has_path(f, stack.subrange(0, k)));
        }
    }
    assert(stacks_of(f) =~= stacks_of(before).union(prefixes(stack, depth)));
    lemma_count_stacks(f);
}

/// Resolution is stable: resolving the same stack again gives the same frame,
/// and resolving it extended by one more function gives a frame whose parent
/// is that frame.
pub proof fn lemma_resolve_stable(
    f0: Seq<StackFrame>,
    f1: Seq<StackFrame>,
    f2: Seq<StackFrame>,
    s1: Seq<Atom>,
    d1: int,
    r1: Option<usize>,
    s2: Seq<Atom>,
    d2: int,
    r2: Option<usize>,
)
    requires
        frames_wf(f2),
        1 <= d1 <= s1.len(),
        1 <= d2 <= s2.len(),
        resolve_post(f0, f1, s1, d1, r1),
        resolve_post(f1, f2, s2, d2, r2),
    ensures
        s2.subrange(0, d2) == s1.subrange(0, d1) ==> r2 == r1,
        d2 == d1 + 1 && s2.subrange(0, d1) == s1.subrange(0, d1) ==> f2[r2->0 as int].parent
            == r1,
        d2 == 1 ==> f2[r2->0 as int].parent is None,
{
    let a = r1->0 as int;
    let b = r2->0 as int;
    lemma_path_stable(f1, f2, a);
    if s2.subrange(0, d2) == s1.subrange(0, d1) {
        assert(has_path(f1, s1.subrange(0, d1)));
        assert(path(f2, a) == path(f2, b));
    }
    if d2 == d1 + 1 && s2.subrange(0, d1) == s1.subrange(0, d1) {
        lemma_path_len(f2, b);
        assert(path(f2, b).drop_last() == s2.subrange(0, d1));
        match f2[b].parent {
            Some(p) => {
                lemma_path_len(f2, p as int);
                assert(path(f2, p as int) == path(f2, a));
            },
            None => {},
        }
    }
}

} // verus!
