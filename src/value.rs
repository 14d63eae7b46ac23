use vstd::prelude::*;

verus! {

/// The mathematical shape of a protocol value.
pub enum Tree {
    Nil,
    Int(int),
    Str(Seq<u8>),
    Array(nat, Seq<Tree>),
}

impl Tree {
    /// Every array in the tree holds as many elements as it declares.
    pub open spec fn complete(self) -> bool
        decreases self,
    {
        match self {
            Tree::Array(n, s) => n == s.len() && all_complete(s),
            _ => true,
        }
    }

    /// No array in the tree holds more elements than it declares.
    pub open spec fn within_size(self) -> bool
        decreases self,
    {
        match self {
            Tree::Array(n, s) => s.len() <= n && all_within_size(s),
            _ => true,
        }
    }

    /// Attaches `val` to the first array, in depth-first order, that still
    /// waits for elements.
    pub open spec fn append(self, val: Tree) -> Tree
        decreases self,
    {
        match self {
            Tree::Array(n, s) => {
                let i = first_incomplete(s);
                if i < s.len() {
                    Tree::Array(n, s.update(i as int, s[i as int].append(val)))
                } else {
                    Tree::Array(n, s.push(val))
                }
            },
            _ => self,
        }
    }
}

/// Every tree of `s` is complete.
pub open spec fn all_complete(s: Seq<Tree>) -> bool
    decreases s,
{
    s.len() == 0 || (all_complete(s.subrange(0, s.len() - 1)) && s[s.len() - 1].complete())
}

pub proof fn lemma_all_complete(s: Seq<Tree>)
    ensures
        all_complete(s) == (forall|j: int| 0 <= j < s.len() ==> #[trigger] s[j].complete()),
    decreases s.len(),
{
    if s.len() > 0 {
        let t = s.subrange(0, s.len() - 1);
        lemma_all_complete(t);
        assert(all_complete(s) == (all_complete(t) && s[s.len() - 1].complete()));
        if all_complete(s) {
            assert forall|j: int| 0 <= j < s.len() implies #[trigger] s[j].complete() by {
                if j < t.len() {
                    assert(t[j] == s[j]);
                }
            }
        }
        if forall|j: int| 0 <= j < s.len() ==> #[trigger] s[j].complete() {
            assert forall|j: int| 0 <= j < t.len() implies #[trigger] t[j].complete() by {
                assert(t[j] == s[j]);
            }
        }
    }
}

/// No tree of `s` holds an array with more elements than it declares.
pub open spec fn all_within_size(s: Seq<Tree>) -> bool
    decreases s,
{
    s.len() == 0 || (all_within_size(s.subrange(0, s.len() - 1)) && s[s.len() - 1].within_size())
}

pub proof fn lemma_all_within_size(s: Seq<Tree>)
    ensures
        all_within_size(s) == (forall|j: int| 0 <= j < s.len() ==> #[trigger] s[j].within_size()),
    decreases s.len(),
{
    if s.len() > 0 {
        let t = s.subrange(0, s.len() - 1);
        lemma_all_within_size(t);
        assert(all_within_size(s) == (all_within_size(t) && s[s.len() - 1].within_size()));
        if all_within_size(s) {
            assert forall|j: int| 0 <= j < s.len() implies #[trigger] s[j].within_size() by {
                if j < t.len() {
                    assert(t[j] == s[j]);
                }
            }
        }
        if forall|j: int| 0 <= j < s.len() ==> #[trigger] s[j].within_size() {
            assert forall|j: int| 0 <= j < t.len() implies #[trigger] t[j].within_size() by {
                assert(t[j] == s[j]);
            }
        }
    }
}

/// Attaching a value within its sizes to an incomplete tree within its sizes
/// keeps it within its sizes: the array that takes the value still had room.
pub proof fn lemma_append_within_size(root: Tree, val: Tree)
    requires
        !root.complete(),
        root.within_size(),
        val.within_size(),
    ensures
        root.append(val).within_size(),
        root matches Tree::Array(n, d) ==> (first_incomplete(d) == d.len() ==> d.len() < n),
    decreases root,
{
    if let Tree::Array(m, d) = root {
        lemma_first_incomplete(d);
        lemma_all_complete(d);
        lemma_all_within_size(d);
        let i = first_incomplete(d) as int;
        if i < d.len() {
            lemma_append_within_size(d[i], val);
            let d1 = d.update(i, d[i].append(val));
            assert forall|j: int| 0 <= j < d1.len() implies #[trigger] d1[j].within_size() by {
                if j != i {
                    assert(d1[j] == d[j]);
                }
            }
            lemma_all_within_size(d1);
        } else {
            let d2 = d.push(val);
            assert forall|j: int| 0 <= j < d2.len() implies #[trigger] d2[j].within_size() by {
                if j < d.len() {
                    assert(d2[j] == d[j]);
                }
            }
            lemma_all_within_size(d2);
        }
    }
}

/// The index of the first incomplete tree of `s`, or its length when there is none.
pub open spec fn first_incomplete(s: Seq<Tree>) -> nat
    decreases s.len(),
{
    if s.len() == 0 {
        0
    } else if !s[0].complete() {
        0
    } else {
        1 + first_incomplete(s.drop_first())
    }
}

pub proof fn lemma_first_incomplete(s: Seq<Tree>)
    ensures
        first_incomplete(s) <= s.len(),
        forall|j: int| 0 <= j < first_incomplete(s) ==> #[trigger] s[j].complete(),
        first_incomplete(s) < s.len() ==> !s[first_incomplete(s) as int].complete(),
    decreases s.len(),
{
    if s.len() > 0 && s[0].complete() {
        lemma_first_incomplete(s.drop_first());
        assert forall|j: int| 0 <= j < first_incomplete(s) implies #[trigger] s[j].complete() by {
            if j > 0 {
                assert(s[j] == s.drop_first()[j - 1]);
            }
        }
    }
}

/// `first_incomplete` is the index before which all trees are complete and at
/// which one is not.
pub proof fn lemma_first_incomplete_is(s: Seq<Tree>, i: int)
    requires
        0 <= i <= s.len(),
        forall|j: int| 0 <= j < i ==> #[trigger] s[j].complete(),
        i < s.len() ==> !s[i].complete(),
    ensures
        first_incomplete(s) == i,
{
    lemma_first_incomplete(s);
    let f = first_incomplete(s) as int;
    if f < i {
        assert(s[f].complete());
    }
    if f > i {
        assert(s[i].complete());
    }
}

/// Attaching an array that still waits for elements, then one more element,
/// is attaching the array with that element already in it; and in between the
/// tree is incomplete.
pub proof fn lemma_append_extend(root: Tree, n: nat, pre: Seq<Tree>, e: Tree)
    requires
        !root.complete(),
        pre.len() < n,
        all_complete(pre),
        e.complete(),
    ensures
        !root.append(Tree::Array(n, pre)).complete(),
        root.append(Tree::Array(n, pre)).append(e) == root.append(Tree::Array(n, pre.push(e))),
    decreases root,
{
    let a = Tree::Array(n, pre);
    lemma_all_complete(pre);
    lemma_first_incomplete_is(pre, pre.len() as int);
    assert(a.append(e) == Tree::Array(n, pre.push(e)));
    if let Tree::Array(m, d) = root {
        lemma_first_incomplete(d);
        lemma_all_complete(d);
        let i = first_incomplete(d) as int;
        if i < d.len() {
            lemma_append_extend(d[i], n, pre, e);
            let d1 = d.update(i, d[i].append(a));
            lemma_first_incomplete_is(d1, i);
            lemma_all_complete(d1);
            assert(d1.update(i, d1[i].append(e)) =~= d.update(i, d[i].append(Tree::Array(n, pre.push(e)))));
        } else {
            let d2 = d.push(a);
            assert forall|j: int| 0 <= j < d.len() implies #[trigger] d2[j].complete() by {
                assert(d2[j] == d[j]);
            }
            lemma_first_incomplete_is(d2, d.len() as int);
            lemma_all_complete(d2);
            assert(d2.update(d.len() as int, d2[d.len() as int].append(e)) =~= d.push(Tree::Array(n, pre.push(e))));
        }
    }
}

/// An array whose elements are all complete takes the next element at its end.
pub proof fn lemma_append_top(n: nat, pre: Seq<Tree>, e: Tree)
    requires
        pre.len() < n,
        all_complete(pre),
    ensures
        !Tree::Array(n, pre).complete(),
        Tree::Array(n, pre).append(e) == Tree::Array(n, pre.push(e)),
{
    lemma_all_complete(pre);
    lemma_first_incomplete_is(pre, pre.len() as int);
}

/// A protocol value: the unit of data that travels over the wire.
#[derive(Debug, PartialEq, Eq)]
pub enum Value {
    Nil,
    Int(i64),
    String(Vec<u8>),
    Array(usize, Vec<Value>),
}

impl Value {
    pub open spec fn view(self) -> Tree
        decreases self,
    {
        match self {
            Value::Nil => Tree::Nil,
            Value::Int(n) => Tree::Int(n as int),
            Value::String(s) => Tree::Str(s@),
            Value::Array(n, data) => Tree::Array(n as nat, views(data@)),
        }
    }

    /// A copy of the value that shares nothing with it.
    #[verifier::loop_isolation(false)]
    pub fn deep_copy(&self) -> (r: Value)
        ensures
            r@ == self@,
        decreases self,
    {
        match self {
            Value::Nil => Value::Nil,
            Value::Int(n) => Value::Int(*n),
            Value::String(s) => {
                let c = s.clone();
                assert(c@ =~= s@);
                Value::String(c)
            },
            Value::Array(n, data) => {
                let mut out: Vec<Value> = Vec::new();
                let mut i: usize = 0;
                while i < data.len()
                    invariant
                        0 <= i <= data@.len(),
                        out@.len() == i,
                        forall|j: int| 0 <= j < i ==> #[trigger] out@[j]@ == data@[j]@,
                    decreases data@.len() - i,
                {
                    proof {
                        assert(decreases_to!(*self => *data));
                        assert(decreases_to!(*data => data@[i as int]));
                    }
                    let c = data[i].deep_copy();
                    out.push(c);
                    i = i + 1;
                }
                proof {
                    lemma_views(out@);
                    lemma_views(data@);
                    assert(views(out@) =~= views(data@));
                }
                Value::Array(*n, out)
            },
        }
    }

    /// Whether every array in the value holds as many elements as it declares.
    #[verifier::loop_isolation(false)]
    pub fn is_complete(&self) -> (r: bool)
        ensures
            r == self@.complete(),
        decreases self,
    {
        match self {
            Value::Array(size, data) => {
                proof {
                    lemma_views(data@);
                    lemma_all_complete(views(data@));
                }
                if *size != data.len() {
                    return false;
                }
                let mut i: usize = 0;
                while i < data.len()
                    invariant
                        0 <= i <= data@.len(),
                        forall|j: int| 0 <= j < i ==> #[trigger] views(data@)[j].complete(),
                    decreases data@.len() - i,
                {
                    proof {
                        assert(decreases_to!(*self => *data));
                        assert(decreases_to!(*data => data@[i as int]));
                    }
                    if !data[i].is_complete() {
                        assert(!views(data@)[i as int].complete());
                        return false;
                    }
                    i = i + 1;
                }
                true
            },
            _ => true,
        }
    }

    /// Attaches `val` to the first array, in depth-first order, that still
    /// waits for elements.
    #[verifier::loop_isolation(false)]
    pub fn append(&mut self, val: Value)
        requires
            !old(self)@.complete(),
        ensures
            final(self)@ == old(self)@.append(val@),
            old(self)@.within_size() && val@.within_size() ==> final(self)@.within_size(),
        decreases old(self)@,
    {
        match self {
            Value::Array(_size, data) => {
                proof {
                    lemma_views(data@);
                    lemma_first_incomplete(views(data@));
                    lemma_all_complete(views(data@));
                    if old(self)@.within_size() && val@.within_size() {
                        lemma_append_within_size(old(self)@, val@);
                    }
                }
                let ghost vs = views(data@);
                let mut i: usize = 0;
                while i < data.len()
                    invariant
                        0 <= i <= data@.len(),
                        forall|j: int| 0 <= j < i ==> #[trigger] vs[j].complete(),
                    decreases data@.len() - i,
                {
                    if !data[i].is_complete() {
                        break;
                    }
                    i = i + 1;
                }
                proof {
                    if i < first_incomplete(vs) {
                        assert(vs[i as int].complete());
                    }
                    if i > first_incomplete(vs) {
                        assert(vs[first_incomplete(vs) as int].complete());
                    }
                }
                if i < data.len() {
                    data[i].append(val);
                    proof {
                        lemma_views(data@);
                        assert(views(data@) =~= vs.update(i as int, vs[i as int].append(val@)));
                    }
                } else {
                    data.push(val);
                    proof {
                        lemma_views(data@);
                        assert(views(data@) =~= vs.push(val@));
                    }
                }
            },
            _ => {},
        }
    }
}

pub open spec fn views(s: Seq<Value>) -> Seq<Tree>
    decreases s,
{
    if s.len() == 0 {
        Seq::empty()
    } else {
        views(s.subrange(0, s.len() - 1)).push(s[s.len() - 1].view())
    }
}

pub proof fn lemma_views(s: Seq<Value>)
    ensures
        views(s).len() == s.len(),
        forall|j: int| 0 <= j < s.len() ==> #[trigger] views(s)[j] == s[j]@,
    decreases s.len(),
{
    if s.len() > 0 {
        let t = s.subrange(0, s.len() - 1);
        lemma_views(t);
        assert forall|j: int| 0 <= j < s.len() implies #[trigger] views(s)[j] == s[j]@ by {
            if j < s.len() - 1 {
                assert(t[j] == s[j]);
            }
        }
    }
}

} // verus!
