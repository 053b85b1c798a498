use vstd::prelude::*;
use vstd::string::*;

verus! {

// ---------------------------------------------------------------------------
// The model: a store of frames. Each frame holds variables and may name an
// enclosing frame, which was created before it.
// ---------------------------------------------------------------------------

/// The mathematical form of one environment.
pub struct Frame<V> {
    pub enclosing: Option<usize>,
    pub vars: Seq<(Seq<char>, V)>,
}

/// The index of the variable `name` in `vars`, if it is there.
pub open spec fn find_var<V>(vars: Seq<(Seq<char>, V)>, name: Seq<char>) -> Option<int> {
    if exists|i: int| 0 <= i < vars.len() && (#[trigger] vars[i]).0 == name {
        Some(choose|i: int| 0 <= i < vars.len() && (#[trigger] vars[i]).0 == name)
    } else {
        None
    }
}

/// No variable occurs twice in `vars`.
pub open spec fn distinct_names<V>(vars: Seq<(Seq<char>, V)>) -> bool {
    forall|i: int, j: int| 0 <= i < j < vars.len() ==> (#[trigger] vars[i]).0 != (#[trigger] vars[j]).0
}

/// The value of `name` in one frame, if it is defined there.
pub open spec fn frame_get<V>(f: Frame<V>, name: Seq<char>) -> Option<V> {
    match find_var(f.vars, name) {
        Some(i) => Some(f.vars[i].1),
        None => None,
    }
}

/// `vars` with `name` bound to `value`: replaced where it is defined, added
/// at the end otherwise.
pub open spec fn set_var<V>(vars: Seq<(Seq<char>, V)>, name: Seq<char>, value: V) -> Seq<
    (Seq<char>, V),
> {
    match find_var(vars, name) {
        Some(i) => vars.update(i, (name, value)),
        None => vars.push((name, value)),
    }
}

/// The store is well formed: every enclosing frame exists and was created
/// before the frame it encloses, and no frame defines a name twice.
pub open spec fn store_wf<V>(frames: Seq<Frame<V>>) -> bool {
    forall|i: int|
        0 <= i < frames.len() ==> {
            &&& (#[trigger] frames[i]).enclosing matches Some(p) ==> p < i
            &&& distinct_names(frames[i].vars)
        }
}

/// The value of `name` seen from frame `e`: in `e` itself, else in the
/// frames that enclose it, innermost first.
pub open spec fn spec_get<V>(frames: Seq<Frame<V>>, e: int, name: Seq<char>) -> Option<V>
    decreases e,
{
    if !(0 <= e < frames.len()) {
        None
    } else {
        match frame_get(frames[e], name) {
            Some(v) => Some(v),
            None => match frames[e].enclosing {
                Some(p) => if 0 <= p < e {
                    spec_get(frames, p as int, name)
                } else {
                    None
                },
                None => None,
            },
        }
    }
}

/// `assign` seen from frame `e`: the store with `name` rebound in the
/// innermost frame that defines it, or nothing if no frame on the way out does.
pub open spec fn spec_assign<V>(frames: Seq<Frame<V>>, e: int, name: Seq<char>, value: V) -> Option<
    Seq<Frame<V>>,
>
    decreases e,
{
    if !(0 <= e < frames.len()) {
        None
    } else {
        match find_var(frames[e].vars, name) {
            Some(_) => Some(
                frames.update(
                    e,
                    Frame { vars: set_var(frames[e].vars, name, value), ..frames[e] },
                ),
            ),
            None => match frames[e].enclosing {
                Some(p) => if 0 <= p < e {
                    spec_assign(frames, p as int, name, value)
                } else {
                    None
                },
                None => None,
            },
        }
    }
}

/// `define`: the store with `name` bound to `value` in frame `e` itself.
pub open spec fn spec_define<V>(frames: Seq<Frame<V>>, e: int, name: Seq<char>, value: V) -> Seq<
    Frame<V>,
> {
    frames.update(e, Frame { vars: set_var(frames[e].vars, name, value), ..frames[e] })
}

/// The frame `distance` steps out from `e`; a frame with no enclosing frame
/// is its own next step.
pub open spec fn spec_ancestor<V>(frames: Seq<Frame<V>>, e: int, distance: nat) -> int
    decreases distance,
{
    if distance == 0 {
        e
    } else {
        let next = if 0 <= e < frames.len() {
            match frames[e].enclosing {
                Some(p) => p as int,
                None => e,
            }
        } else {
            e
        };
        spec_ancestor(frames, next, (distance - 1) as nat)
    }
}

/// The frames seen from `e`, innermost first.
pub open spec fn spec_chain<V>(frames: Seq<Frame<V>>, e: int) -> Seq<Frame<V>>
    decreases e,
{
    if !(0 <= e < frames.len()) {
        seq![]
    } else {
        seq![frames[e]] + match frames[e].enclosing {
            Some(p) => if 0 <= p < e {
                spec_chain(frames, p as int)
            } else {
                seq![]
            },
            None => seq![],
        }
    }
}

/// `b` holds the same names as `a`, each value a clone of the one in `a`.
pub open spec fn cloned_vars<V: Clone>(a: Seq<(Seq<char>, V)>, b: Seq<(Seq<char>, V)>) -> bool {
    &&& a.len() == b.len()
    &&& forall|i: int| 0 <= i < a.len() ==> (#[trigger] b[i]).0 == a[i].0 && cloned(a[i].1, b[i].1)
}

/// The chain `b` is a clone of the chain `a`: as many frames, and frame by
/// frame the same names with cloned values.
pub open spec fn cloned_chain<V: Clone>(a: Seq<Frame<V>>, b: Seq<Frame<V>>) -> bool {
    &&& a.len() == b.len()
    &&& forall|i: int| 0 <= i < a.len() ==> cloned_vars(#[trigger] a[i].vars, b[i].vars)
}

/// The message of a failed assignment.
pub open spec fn undefined_msg(name: Seq<char>) -> Seq<char> {
    "Undefined variable "@ + name
}

// ---------------------------------------------------------------------------
// Laws.
// ---------------------------------------------------------------------------

/// In a frame with distinct names, the index found for a name is the one
/// that holds it.
proof fn lemma_find_var<V>(vars: Seq<(Seq<char>, V)>, name: Seq<char>, i: int)
    requires
        distinct_names(vars),
        0 <= i < vars.len(),
        vars[i].0 == name,
    ensures
        find_var(vars, name) == Some(i),
{
}

/// Binding a name keeps the names distinct, finds the new value under that
/// name and keeps every other name's value.
pub proof fn lemma_set_var<V>(vars: Seq<(Seq<char>, V)>, name: Seq<char>, value: V)
    requires
        distinct_names(vars),
    ensures
        distinct_names(set_var(vars, name, value)),
        frame_get(Frame { enclosing: None, vars: set_var(vars, name, value) }, name) == Some(value),
        forall|other: Seq<char>|
            other != name ==> frame_get(
                Frame { enclosing: None, vars: set_var(vars, name, value) },
                other,
            ) == frame_get(Frame { enclosing: None, vars }, other),
{
    let nv = set_var(vars, name, value);
    match find_var(vars, name) {
        Some(i) => {
            lemma_find_var(nv, name, i);
        },
        None => {
            lemma_find_var(nv, name, vars.len() as int);
        },
    }
    assert forall|other: Seq<char>| other != name implies frame_get(
        Frame { enclosing: None, vars: nv },
        other,
    ) == frame_get(Frame { enclosing: None, vars }, other) by {
        if let Some(j) = find_var(vars, other) {
            lemma_find_var(nv, other, j);
        } else if let Some(j) = find_var(nv, other) {
            assert(nv[j].0 == other);
            assert(j < vars.len() ==> vars[j].0 == other);
        }
    }
}

/// Binding a name keeps the names distinct.
pub proof fn lemma_set_var_distinct<V>(vars: Seq<(Seq<char>, V)>, name: Seq<char>, value: V)
    requires
        distinct_names(vars),
    ensures
        distinct_names(set_var(vars, name, value)),
{
    lemma_set_var(vars, name, value);
}

/// A frame's lookup depends on its variables only.
proof fn lemma_frame_get_vars<V>(f: Frame<V>, name: Seq<char>)
    ensures
        frame_get(f, name) == frame_get(Frame { enclosing: None, vars: f.vars }, name),
{
}

/// Lookups from frames below `n` see only frames below `n`.
proof fn lemma_get_prefix<V>(f1: Seq<Frame<V>>, f2: Seq<Frame<V>>, n: int, e: int, name: Seq<char>)
    requires
        0 <= n <= f1.len(),
        n <= f2.len(),
        forall|i: int| 0 <= i < n ==> f1[i] == f2[i],
        e < n,
    ensures
        spec_get(f1, e, name) == spec_get(f2, e, name),
    decreases e,
{
    if 0 <= e {
        if let Some(p) = f1[e].enclosing {
            if 0 <= p < e {
                lemma_get_prefix(f1, f2, n, p as int, name);
            }
        }
    }
}

/// Chains from frames below `n` see only frames below `n`.
proof fn lemma_chain_prefix<V>(f1: Seq<Frame<V>>, f2: Seq<Frame<V>>, n: int, e: int)
    requires
        0 <= n <= f1.len(),
        n <= f2.len(),
        forall|i: int| 0 <= i < n ==> f1[i] == f2[i],
        e < n,
    ensures
        spec_chain(f1, e) == spec_chain(f2, e),
    decreases e,
{
    if 0 <= e {
        if let Some(p) = f1[e].enclosing {
            if 0 <= p < e {
                lemma_chain_prefix(f1, f2, n, p as int);
            }
        }
    }
}

/// Law: a variable defined in an environment is read back from it.
pub proof fn lemma_get_after_define<V>(frames: Seq<Frame<V>>, e: int, name: Seq<char>, value: V)
    requires
        store_wf(frames),
        0 <= e < frames.len(),
    ensures
        spec_get(spec_define(frames, e, name, value), e, name) == Some(value),
        store_wf(spec_define(frames, e, name, value)),
{
    let f2 = spec_define(frames, e, name, value);
    lemma_set_var(frames[e].vars, name, value);
    lemma_frame_get_vars(f2[e], name);
    assert forall|i: int| 0 <= i < f2.len() implies {
        &&& (#[trigger] f2[i]).enclosing matches Some(p) ==> p < i
        &&& distinct_names(f2[i].vars)
    } by {
        assert(frames[i].enclosing matches Some(p) ==> p < i);
    }
}

/// Law: defining a variable in an environment leaves what every other name
/// reads from it unchanged.
pub proof fn lemma_define_keeps_others<V>(
    frames: Seq<Frame<V>>,
    e: int,
    name: Seq<char>,
    value: V,
    other: Seq<char>,
)
    requires
        store_wf(frames),
        0 <= e < frames.len(),
        other != name,
    ensures
        spec_get(spec_define(frames, e, name, value), e, other) == spec_get(frames, e, other),
{
    let f2 = spec_define(frames, e, name, value);
    lemma_set_var(frames[e].vars, name, value);
    lemma_frame_get_vars(f2[e], other);
    lemma_frame_get_vars(frames[e], other);
    assert(frames[e].enclosing matches Some(p) ==> p < e);
    if let Some(p) = frames[e].enclosing {
        lemma_get_prefix(frames, f2, e, p as int, other);
    }
}

/// Law: an assignment fails exactly where the name reads as undefined; where
/// it succeeds, the name reads back as the assigned value and the store
/// stays well formed.
pub proof fn lemma_assign_then_get<V>(frames: Seq<Frame<V>>, e: int, name: Seq<char>, value: V)
    requires
        store_wf(frames),
        0 <= e < frames.len(),
    ensures
        spec_assign(frames, e, name, value) is None <==> spec_get(frames, e, name) is None,
        spec_assign(frames, e, name, value) matches Some(f2) ==> {
            &&& spec_get(f2, e, name) == Some(value)
            &&& store_wf(f2)
            &&& f2.len() == frames.len()
        },
    decreases e,
{
    assert(frames[e].enclosing matches Some(p) ==> p < e);
    match find_var(frames[e].vars, name) {
        Some(_) => {
            lemma_get_after_define(frames, e, name, value);
        },
        None => {
            if let Some(p) = frames[e].enclosing {
                lemma_assign_then_get(frames, p as int, name, value);
                if let Some(f2) = spec_assign(frames, p as int, name, value) {
                    // The frames from `p` up changed; `e` itself did not, and
                    // it still does not define `name`.
                    assert(f2 == spec_assign(frames, e, name, value)->0);
                    assert(f2[e] == frames[e]) by {
                        lemma_assign_frames(frames, p as int, name, value);
                    }
                }
            }
        },
    }
}

/// An assignment from `e` changes only the variables of frames at or below
/// `e`, and of those only one frame.
proof fn lemma_assign_frames<V>(frames: Seq<Frame<V>>, e: int, name: Seq<char>, value: V)
    requires
        store_wf(frames),
        0 <= e < frames.len(),
    ensures
        spec_assign(frames, e, name, value) matches Some(f2) ==> {
            &&& f2.len() == frames.len()
            &&& forall|i: int| e < i < frames.len() ==> f2[i] == frames[i]
            &&& forall|i: int| 0 <= i < frames.len() ==> (#[trigger] f2[i]).enclosing == frames[i].enclosing
        },
    decreases e,
{
    assert(frames[e].enclosing matches Some(p) ==> p < e);
    if find_var(frames[e].vars, name) is None {
        if let Some(p) = frames[e].enclosing {
            lemma_assign_frames(frames, p as int, name, value);
        }
    }
}

/// Law: reading from a fresh environment enclosed in `parent` reads from
/// `parent`.
pub proof fn lemma_enclose_reads_parent<V>(frames: Seq<Frame<V>>, parent: usize, name: Seq<char>)
    requires
        store_wf(frames),
        0 <= parent < frames.len(),
    ensures
        spec_get(
            frames.push(Frame { enclosing: Some(parent), vars: seq![] }),
            frames.len() as int,
            name,
        ) == spec_get(frames, parent as int, name),
{
    let f2 = frames.push(Frame { enclosing: Some(parent), vars: seq![] });
    lemma_get_prefix(frames, f2, frames.len() as int, parent as int, name);
    assert(find_var(f2[frames.len() as int].vars, name) is None);
}

/// The environment some steps out lies in the store, at or below the one
/// the steps start from.
pub proof fn lemma_ancestor_in_store<V>(frames: Seq<Frame<V>>, e: int, distance: nat)
    requires
        store_wf(frames),
        0 <= e < frames.len(),
    ensures
        0 <= spec_ancestor(frames, e, distance) <= e,
    decreases distance,
{
    if distance > 0 {
        assert(frames[e].enclosing matches Some(p) ==> p < e);
        let next = match frames[e].enclosing {
            Some(p) => p as int,
            None => e,
        };
        lemma_ancestor_in_store(frames, next, (distance - 1) as nat);
    }
}

/// The environments some steps out depend only on which environment
/// encloses which.
pub proof fn lemma_ancestor_same_links<V>(
    f1: Seq<Frame<V>>,
    f2: Seq<Frame<V>>,
    e: int,
    distance: nat,
)
    requires
        f1.len() == f2.len(),
        forall|i: int| 0 <= i < f1.len() ==> (#[trigger] f1[i]).enclosing == f2[i].enclosing,
    ensures
        spec_ancestor(f1, e, distance) == spec_ancestor(f2, e, distance),
    decreases distance,
{
    if distance > 0 {
        let next = if 0 <= e < f1.len() {
            match f1[e].enclosing {
                Some(p) => p as int,
                None => e,
            }
        } else {
            e
        };
        lemma_ancestor_same_links(f1, f2, next, (distance - 1) as nat);
    }
}

/// Law: one step out of an environment is the environment that encloses
/// it, and an environment with none is where every walk outwards ends:
/// `d + 1` steps out of `e` are `d` steps out of its enclosing environment.
pub proof fn lemma_ancestor_step<V>(frames: Seq<Frame<V>>, e: int, d: nat)
    requires
        0 <= e < frames.len(),
    ensures
        frames[e].enclosing matches Some(p) ==> spec_ancestor(frames, e, d + 1) == spec_ancestor(
            frames,
            p as int,
            d,
        ),
        frames[e].enclosing matches Some(p) ==> spec_ancestor(frames, e, 1) == p as int,
        frames[e].enclosing is None ==> spec_ancestor(frames, e, d) == e,
    decreases d,
{
    reveal_with_fuel(spec_ancestor, 2);
    if frames[e].enclosing is None && d > 0 {
        lemma_ancestor_step(frames, e, (d - 1) as nat);
    }
}

/// Law: the environment zero steps out is the environment itself.
pub proof fn lemma_ancestor_zero<V>(frames: Seq<Frame<V>>, e: int)
    ensures
        spec_ancestor(frames, e, 0) == e,
{
}

// ---------------------------------------------------------------------------
// The store.
// ---------------------------------------------------------------------------

/// One environment: the environment that encloses it, and its variables.
#[derive(Clone, Debug)]
pub struct Environment<V> {
    pub enclosing: Option<usize>,
    pub env: Vec<(String, V)>,
}

impl<V> Environment<V> {
    /// The mathematical form of the environment.
    pub open spec fn frame(&self) -> Frame<V> {
        Frame { enclosing: self.enclosing, vars: self.env@.map_values(|p: (String, V)| (p.0@, p.1)) }
    }
}

/// The environments of a program, each found by its index.
pub struct Environments<V> {
    frames: Vec<Environment<V>>,
}

impl<V> Environments<V> {
    /// The environments as frames.
    pub closed spec fn frames(&self) -> Seq<Frame<V>> {
        self.frames@.map_values(|e: Environment<V>| e.frame())
    }

    /// The store is well formed.
    pub open spec fn wf(&self) -> bool {
        store_wf(self.frames())
    }

    /// An empty store.
    pub fn empty() -> (s: Self)
        ensures
            s.frames() == Seq::<Frame<V>>::empty(),
            s.wf(),
    {
        let s = Environments { frames: Vec::new() };
        assert(s.frames() =~= Seq::<Frame<V>>::empty());
        s
    }

    /// The number of environments.
    pub fn len(&self) -> (n: usize)
        ensures
            n == self.frames().len(),
    {
        self.frames.len()
    }

    /// Adds an environment and returns its index.
    fn push_frame(&mut self, frame: Environment<V>) -> (e: usize)
        requires
            old(self).wf(),
            frame.enclosing matches Some(p) ==> p < old(self).frames().len(),
            distinct_names(frame.frame().vars),
        ensures
            e == old(self).frames().len(),
            final(self).frames() == old(self).frames().push(frame.frame()),
            final(self).wf(),
    {
        let e = self.frames.len();
        let ghost f = frame.frame();
        self.frames.push(frame);
        assert(self.frames() =~= old(self).frames().push(f));
        e
    }

    /// The index of `name` among the variables of environment `e`.
    fn find(&self, e: usize, name: &String) -> (r: Option<usize>)
        requires
            self.wf(),
            e < self.frames().len(),
        ensures
            r matches Some(i) ==> find_var(self.frames()[e as int].vars, name@) == Some(i as int)
                && i < self.frames()[e as int].vars.len(),
            r is None ==> find_var(self.frames()[e as int].vars, name@) is None,
    {
        let ghost fv = self.frames()[e as int].vars;
        proof {
            self.lemma_frame(e as int);
            assert(distinct_names(fv));
        }
        let mut i: usize = 0;
        while i < self.frames[e].env.len()
            invariant
                self.wf(),
                e < self.frames().len(),
                fv == self.frames()[e as int].vars,
                i <= self.frames@[e as int].env@.len(),
                fv.len() == self.frames@[e as int].env@.len(),
                distinct_names(fv),
                forall|j: int| 0 <= j < i ==> fv[j].0 != name@,
            decreases self.frames@[e as int].env@.len() - i,
        {
            proof {
                self.lemma_frame(e as int);
            }
            if self.frames[e].env[i].0 == *name {
                proof {
                    lemma_find_var(fv, name@, i as int);
                }
                return Some(i);
            }
            i = i + 1;
        }
        None
    }

    /// Environment `e` and its mathematical form.
    proof fn lemma_frame(&self, e: int)
        requires
            0 <= e < self.frames@.len(),
        ensures
            self.frames().len() == self.frames@.len(),
            self.frames()[e] == self.frames@[e].frame(),
            self.frames()[e].enclosing == self.frames@[e].enclosing,
            self.frames()[e].vars.len() == self.frames@[e].env@.len(),
            forall|i: int|
                0 <= i < self.frames@[e].env@.len() ==> #[trigger] self.frames()[e].vars[i] == (
                    self.frames@[e].env@[i].0@,
                    self.frames@[e].env@[i].1,
                ),
    {
    }
}

impl<V> Environment<V> {
    /// A fresh environment enclosed in a fresh global one; returns the inner one.
    pub fn new_main(store: &mut Environments<V>) -> (e: usize)
        requires
            old(store).wf(),
        ensures
            final(store).wf(),
            e == old(store).frames().len() + 1,
            final(store).frames() == old(store).frames().push(
                Frame { enclosing: None, vars: seq![] },
            ).push(Frame { enclosing: Some((e - 1) as usize), vars: seq![] }),
    {
        let outer = Environment::new(store);
        Environment::enclose(store, outer)
    }

    /// A fresh environment with no enclosing one.
    pub fn new(store: &mut Environments<V>) -> (e: usize)
        requires
            old(store).wf(),
        ensures
            final(store).wf(),
            e == old(store).frames().len(),
            final(store).frames() == old(store).frames().push(Frame { enclosing: None, vars: seq![] }),
    {
        let f = Environment { enclosing: None, env: Vec::new() };
        assert(f.frame().vars =~= seq![]);
        store.push_frame(f)
    }

    /// A fresh environment enclosed in `parent`.
    pub fn enclose(store: &mut Environments<V>, parent: usize) -> (e: usize)
        requires
            old(store).wf(),
            parent < old(store).frames().len(),
        ensures
            final(store).wf(),
            e == old(store).frames().len(),
            final(store).frames() == old(store).frames().push(
                Frame { enclosing: Some(parent), vars: seq![] },
            ),
    {
        let f = Environment { enclosing: Some(parent), env: Vec::new() };
        assert(f.frame().vars =~= seq![]);
        store.push_frame(f)
    }

    /// The value of `name` seen from environment `env`: in `env` itself, else
    /// in the environments around it.
    pub fn get<'a>(store: &'a Environments<V>, env: usize, name: &String) -> (r: Result<&'a V, String>)
        requires
            store.wf(),
            env < store.frames().len(),
        ensures
            match spec_get(store.frames(), env as int, name@) {
                Some(v) => r matches Ok(x) && *x == v,
                None => r matches Err(msg) && msg@ == "no such variable"@,
            },
    {
        let mut cur = env;
        loop
            invariant
                store.wf(),
                cur < store.frames().len(),
                spec_get(store.frames(), env as int, name@) == spec_get(
                    store.frames(),
                    cur as int,
                    name@,
                ),
            decreases cur,
        {
            proof {
                store.lemma_frame(cur as int);
            }
            assert(store.frames()[cur as int].enclosing matches Some(p) ==> p < cur);
            match store.find(cur, name) {
                Some(i) => {
                    proof {
                        store.lemma_frame(cur as int);
                    }
                    return Ok(&store.frames[cur].env[i].1);
                },
                None => {},
            }
            match store.frames[cur].enclosing {
                Some(p) => {
                    cur = p;
                },
                None => {
                    return Err(String::from_str("no such variable"));
                },
            }
        }
    }

    /// Rebinds `name` in the innermost environment, from `env` outwards,
    /// that defines it; fails if none does.
    pub fn assign(store: &mut Environments<V>, env: usize, name: &String, value: V) -> (r: Result<
        (),
        String,
    >)
        requires
            old(store).wf(),
            env < old(store).frames().len(),
        ensures
            match spec_assign(old(store).frames(), env as int, name@, value) {
                Some(f2) => r is Ok && final(store).frames() == f2,
                None => r matches Err(msg) && msg@ == undefined_msg(name@) && final(store).frames()
                    == old(store).frames(),
            },
            final(store).wf(),
    {
        let mut cur = env;
        proof {
            lemma_assign_then_get(store.frames(), env as int, name@, value);
        }
        loop
            invariant
                store.wf(),
                *store == *old(store),
                cur < store.frames().len(),
                spec_assign(store.frames(), env as int, name@, value) == spec_assign(
                    store.frames(),
                    cur as int,
                    name@,
                    value,
                ),
            decreases cur,
        {
            proof {
                store.lemma_frame(cur as int);
            }
            assert(store.frames()[cur as int].enclosing matches Some(p) ==> p < cur);
            match store.find(cur, name) {
                Some(i) => {
                    proof {
                        lemma_assign_then_get(store.frames(), cur as int, name@, value);
                    }
                    store.set_at(cur, i, value);
                    return Ok(());
                },
                None => {},
            }
            match store.frames[cur].enclosing {
                Some(p) => {
                    cur = p;
                },
                None => {
                    let mut msg = String::from_str("Undefined variable ");
                    msg.append(name.as_str());
                    return Err(msg);
                },
            }
        }
    }

    /// Binds `name` to `value` in environment `env` itself.
    pub fn define(store: &mut Environments<V>, env: usize, name: String, value: V)
        requires
            old(store).wf(),
            env < old(store).frames().len(),
        ensures
            final(store).frames() == spec_define(old(store).frames(), env as int, name@, value),
            final(store).wf(),
    {
        proof {
            lemma_get_after_define(store.frames(), env as int, name@, value);
        }
        match store.find(env, &name) {
            Some(i) => store.set_at(env, i, value),
            None => store.push_var(env, name, value),
        }
    }

    /// The environment `distance` steps out from `env` (an environment with
    /// no enclosing one is its own next step).
    pub fn ancestor(store: &Environments<V>, env: usize, distance: usize) -> (r: usize)
        requires
            store.wf(),
            env < store.frames().len(),
        ensures
            r == spec_ancestor(store.frames(), env as int, distance as nat),
            r < store.frames().len(),
    {
        let mut e = env;
        let mut k: usize = 0;
        while k < distance
            invariant
                store.wf(),
                e < store.frames().len(),
                k <= distance,
                spec_ancestor(store.frames(), env as int, distance as nat) == spec_ancestor(
                    store.frames(),
                    e as int,
                    (distance - k) as nat,
                ),
            decreases distance - k,
        {
            proof {
                store.lemma_frame(e as int);
            }
            assert(store.frames()[e as int].enclosing matches Some(p) ==> p < e);
            if let Some(a) = store.frames[e].enclosing {
                e = a;
            }
            k = k + 1;
        }
        e
    }

    /// The value of `name` seen from the environment `distance` steps out.
    #[allow(non_snake_case)]
    pub fn get_At<'a>(store: &'a Environments<V>, env: usize, distance: usize, name: &String) -> (r: Result<
        &'a V,
        String,
    >)
        requires
            store.wf(),
            env < store.frames().len(),
        ensures
            match spec_get(
                store.frames(),
                spec_ancestor(store.frames(), env as int, distance as nat),
                name@,
            ) {
                Some(v) => r matches Ok(x) && *x == v,
                None => r matches Err(msg) && msg@ == "no such variable"@,
            },
    {
        let a = Environment::ancestor(store, env, distance);
        Environment::get(store, a, name)
    }

    /// Binds `name` to `value` in the environment `distance` steps out.
    #[allow(non_snake_case)]
    pub fn ASSIGN_AT(store: &mut Environments<V>, env: usize, distance: usize, name: &String, value: V)
        requires
            old(store).wf(),
            env < old(store).frames().len(),
        ensures
            final(store).frames() == spec_define(
                old(store).frames(),
                spec_ancestor(old(store).frames(), env as int, distance as nat),
                name@,
                value,
            ),
            final(store).wf(),
    {
        let a = Environment::ancestor(store, env, distance);
        Environment::define(store, a, name.clone(), value);
    }
}

impl<V: Clone> Environment<V> {
    /// Copies environment `env` and every environment around it, values
    /// cloned; returns the copy of `env`. The environments already in the
    /// store are left as they were.
    pub fn deep_clone(store: &mut Environments<V>, env: usize) -> (r: usize)
        requires
            old(store).wf(),
            env < old(store).frames().len(),
        ensures
            final(store).wf(),
            old(store).frames().len() <= r,
            r == final(store).frames().len() - 1,
            forall|i: int|
                0 <= i < old(store).frames().len() ==> #[trigger] final(store).frames()[i]
                    == old(store).frames()[i],
            cloned_chain(
                spec_chain(old(store).frames(), env as int),
                spec_chain(final(store).frames(), r as int),
            ),
        decreases env,
    {
        let ghost f0 = store.frames();
        proof {
            store.lemma_frame(env as int);
        }
        let enclosing: Option<usize> = match store.frames[env].enclosing {
            Some(p) => {
                assert(p < env);
                Some(Environment::deep_clone(store, p))
            },
            None => None,
        };
        let ghost f1 = store.frames();
        proof {
            store.lemma_frame(env as int);
            assert(f1[env as int] == f0[env as int]);
        }
        let ghost src = f0[env as int].vars;
        let n = store.frames[env].env.len();
        let mut vars: Vec<(String, V)> = Vec::new();
        let mut i: usize = 0;
        while i < n
            invariant
                store.wf(),
                store.frames() == f1,
                env < f1.len(),
                f1[env as int].vars == src,
                n == src.len(),
                n == store.frames@[env as int].env@.len(),
                i <= n,
                vars@.len() == i,
                forall|j: int|
                    0 <= j < i ==> (#[trigger] vars@[j]).0@ == src[j].0 && cloned(
                        src[j].1,
                        vars@[j].1,
                    ),
            decreases n - i,
        {
            proof {
                store.lemma_frame(env as int);
            }
            let name = store.frames[env].env[i].0.clone();
            let value = store.frames[env].env[i].1.clone();
            vars.push((name, value));
            i = i + 1;
        }
        let f = Environment { enclosing, env: vars };
        proof {
            assert(cloned_vars(src, f.frame().vars));
            assert(distinct_names(f0[env as int].vars));
            assert(distinct_names(f.frame().vars)) by {
                assert forall|a: int, b: int|
                    0 <= a < b < f.frame().vars.len() implies (#[trigger] f.frame().vars[a]).0
                    != (#[trigger] f.frame().vars[b]).0 by {
                    assert(f.frame().vars[a].0 == src[a].0);
                    assert(f.frame().vars[b].0 == src[b].0);
                }
            }
        }
        let r = store.push_frame(f);
        proof {
            let f2 = store.frames();
            assert(f2[r as int] == f.frame());
            let c0 = spec_chain(f0, env as int);
            let c2 = spec_chain(f2, r as int);
            match f0[env as int].enclosing {
                Some(p) => {
                    let q = enclosing->0;
                    lemma_chain_prefix(f1, f2, f1.len() as int, q as int);
                    let a = spec_chain(f0, p as int);
                    let b = spec_chain(f2, q as int);
                    assert(c0 == seq![f0[env as int]] + a);
                    assert(c2 == seq![f.frame()] + b);
                    assert forall|k: int| 0 <= k < c0.len() implies cloned_vars(
                        #[trigger] c0[k].vars,
                        c2[k].vars,
                    ) by {
                        if k > 0 {
                            assert(c0[k] == a[k - 1]);
                            assert(c2[k] == b[k - 1]);
                        }
                    }
                },
                None => {
                    assert(c0 == seq![f0[env as int]]);
                    assert(c2 == seq![f.frame()]);
                },
            }
        }
        r
    }
}

impl<V> Environments<V> {
    /// Replaces the value of the `i`-th variable of environment `e`.
    fn set_at(&mut self, e: usize, i: usize, value: V)
        requires
            old(self).wf(),
            e < old(self).frames().len(),
            i < old(self).frames()[e as int].vars.len(),
        ensures
            final(self).frames() == old(self).frames().update(
                e as int,
                Frame {
                    vars: old(self).frames()[e as int].vars.update(
                        i as int,
                        (old(self).frames()[e as int].vars[i as int].0, value),
                    ),
                    ..old(self).frames()[e as int]
                },
            ),
    {
        let ghost f0 = self.frames();
        self.frames[e].env[i].1 = value;
        assert(self.frames() =~= f0.update(
            e as int,
            Frame {
                vars: f0[e as int].vars.update(i as int, (f0[e as int].vars[i as int].0, value)),
                ..f0[e as int]
            },
        )) by {
            assert(self.frames()[e as int].vars =~= f0[e as int].vars.update(
                i as int,
                (f0[e as int].vars[i as int].0, value),
            ));
        }
    }

    /// Adds the variable `name` with `value` at the end of environment `e`.
    fn push_var(&mut self, e: usize, name: String, value: V)
        requires
            old(self).wf(),
            e < old(self).frames().len(),
        ensures
            final(self).frames() == old(self).frames().update(
                e as int,
                Frame {
                    vars: old(self).frames()[e as int].vars.push((name@, value)),
                    ..old(self).frames()[e as int]
                },
            ),
    {
        let ghost f0 = self.frames();
        let ghost n = name@;
        self.frames[e].env.push((name, value));
        assert(self.frames()[e as int].vars =~= f0[e as int].vars.push((n, value)));
        assert(self.frames() =~= f0.update(
            e as int,
            Frame { vars: f0[e as int].vars.push((n, value)), ..f0[e as int] },
        ));
    }
}

} // verus!
