use vstd::prelude::*;

verus! {

/// A sequence whose items are either single elements or nested sequences.
///
/// Its elements are visited depth first, and each element is reached from the
/// root by a path: the index of the item taken at every level.
pub enum LayeredVec<T> {
    Element(T),
    Sequence(Vec<LayeredVec<T>>),
}

impl<T> LayeredVec<T> {
    /// The elements in depth-first order.
    pub open spec fn flatten(self) -> Seq<T>
        decreases self,
    {
        match self {
            LayeredVec::Element(t) => seq![t],
            LayeredVec::Sequence(v) => flatten_from(v@, 0),
        }
    }

    /// The path of every element, in depth-first order.
    pub open spec fn paths(self) -> Seq<Seq<usize>>
        decreases self,
    {
        match self {
            LayeredVec::Element(_) => seq![Seq::<usize>::empty()],
            LayeredVec::Sequence(v) => paths_from(v@, 0),
        }
    }

    /// The number of nodes, elements and sequences alike.
    pub open spec fn size(self) -> nat
        decreases self,
    {
        match self {
            LayeredVec::Element(_) => 1,
            LayeredVec::Sequence(v) => 1 + size_from(v@, 0),
        }
    }

    /// The node that `path` leads to, if it leads anywhere.
    pub open spec fn at(self, path: Seq<usize>) -> Option<LayeredVec<T>>
        decreases path.len(),
    {
        if path.len() == 0 {
            Some(self)
        } else {
            match self {
                LayeredVec::Element(_) => None,
                LayeredVec::Sequence(v) => if path[0] < v@.len() {
                    v@[path[0] as int].at(path.drop_first())
                } else {
                    None
                },
            }
        }
    }

    /// The element that `path` leads to, if it leads to an element.
    pub open spec fn element_at(self, path: Seq<usize>) -> Option<T> {
        match self.at(path) {
            Some(LayeredVec::Element(t)) => Some(t),
            _ => None,
        }
    }
}

/// The elements of the items `s[i..]`, in depth-first order.
pub open spec fn flatten_from<T>(s: Seq<LayeredVec<T>>, i: int) -> Seq<T>
    decreases s, s.len() - i,
{
    if 0 <= i < s.len() {
        s[i].flatten() + flatten_from(s, i + 1)
    } else {
        seq![]
    }
}

/// Prefixes every path of `ps` with `head`.
pub open spec fn prefixed(head: Seq<usize>, ps: Seq<Seq<usize>>) -> Seq<Seq<usize>> {
    ps.map_values(|p: Seq<usize>| head + p)
}

/// The paths of the elements of the items `s[i..]`, each starting with the
/// index of its item.
pub open spec fn paths_from<T>(s: Seq<LayeredVec<T>>, i: int) -> Seq<Seq<usize>>
    decreases s, s.len() - i,
{
    if 0 <= i < s.len() {
        prefixed(seq![i as usize], s[i].paths()) + paths_from(s, i + 1)
    } else {
        seq![]
    }
}

/// The number of nodes in the items `s[i..]`.
pub open spec fn size_from<T>(s: Seq<LayeredVec<T>>, i: int) -> nat
    decreases s, s.len() - i,
{
    if 0 <= i < s.len() {
        s[i].size() + size_from(s, i + 1)
    } else {
        0
    }
}

/// The elements still to come from a stack of nodes whose top is its last item.
pub open spec fn stack_elements<T>(st: Seq<&LayeredVec<T>>) -> Seq<T>
    decreases st.len(),
{
    if st.len() == 0 {
        seq![]
    } else {
        st.last().flatten() + stack_elements(st.drop_last())
    }
}

/// The number of nodes on a stack of nodes.
pub open spec fn stack_size<T>(st: Seq<&LayeredVec<T>>) -> nat
    decreases st.len(),
{
    if st.len() == 0 {
        0
    } else {
        st.last().size() + stack_size(st.drop_last())
    }
}

/// The paths still to come from a stack of nodes, each with the path that
/// leads to it.
pub open spec fn stack_paths<T>(st: Seq<(&LayeredVec<T>, Vec<usize>)>) -> Seq<Seq<usize>>
    decreases st.len(),
{
    if st.len() == 0 {
        seq![]
    } else {
        prefixed(st.last().1@, st.last().0.paths()) + stack_paths(st.drop_last())
    }
}

/// The number of nodes on a stack of nodes with paths.
pub open spec fn path_stack_size<T>(st: Seq<(&LayeredVec<T>, Vec<usize>)>) -> nat
    decreases st.len(),
{
    if st.len() == 0 {
        0
    } else {
        st.last().0.size() + path_stack_size(st.drop_last())
    }
}

/// Every element has exactly one path.
pub proof fn lemma_paths_len<T>(lv: LayeredVec<T>)
    ensures
        lv.paths().len() == lv.flatten().len(),
    decreases lv,
{
    match lv {
        LayeredVec::Element(_) => {},
        LayeredVec::Sequence(v) => {
            lemma_paths_from_len(v@, 0);
        },
    }
}

proof fn lemma_paths_from_len<T>(s: Seq<LayeredVec<T>>, i: int)
    ensures
        paths_from(s, i).len() == flatten_from(s, i).len(),
    decreases s, s.len() - i,
{
    if 0 <= i < s.len() {
        lemma_paths_len(s[i]);
        lemma_paths_from_len(s, i + 1);
    }
}

proof fn lemma_at_prefixed<T>(v: Vec<LayeredVec<T>>, i: int, p: Seq<usize>)
    requires
        0 <= i < v@.len(),
        i <= usize::MAX,
    ensures
        LayeredVec::Sequence(v).at(seq![i as usize] + p) == v@[i].at(p),
{
    assert((seq![i as usize] + p).drop_first() =~= p);
}

/// The `j`-th path leads to the `j`-th element.
pub proof fn lemma_path_leads_to_element<T>(lv: LayeredVec<T>, j: int)
    requires
        0 <= j < lv.flatten().len(),
    ensures
        lv.paths().len() == lv.flatten().len(),
        lv.element_at(lv.paths()[j]) == Some(lv.flatten()[j]),
    decreases lv,
{
    lemma_paths_len(lv);
    match lv {
        LayeredVec::Element(_) => {},
        LayeredVec::Sequence(v) => {
            lemma_path_from_leads_to_element(v, 0, j);
        },
    }
}

proof fn lemma_path_from_leads_to_element<T>(v: Vec<LayeredVec<T>>, i: int, j: int)
    requires
        0 <= i,
        0 <= j < flatten_from(v@, i).len(),
    ensures
        paths_from(v@, i).len() == flatten_from(v@, i).len(),
        LayeredVec::Sequence(v).element_at(paths_from(v@, i)[j]) == Some(flatten_from(v@, i)[j]),
    decreases v@, v@.len() - i,
{
    let s = v@;
    assert(s.len() == v.len());
    lemma_paths_from_len(s, i);
    if i < s.len() {
        let head = s[i].flatten();
        lemma_paths_len(s[i]);
        if j < head.len() {
            lemma_path_leads_to_element(s[i], j);
            let p = s[i].paths()[j];
            lemma_at_prefixed(v, i, p);
            assert(paths_from(s, i)[j] == seq![i as usize] + p);
        } else {
            lemma_path_from_leads_to_element(v, i + 1, j - head.len());
        }
    }
}

/// A sequence of single elements flattens to those elements, and the path
/// of the `j`-th is `[j]`.
pub proof fn lemma_flat_elements<T>(v: Vec<LayeredVec<T>>, elems: Seq<T>, i: int)
    requires
        v@.len() == elems.len(),
        forall|j: int| 0 <= j < elems.len() ==> #[trigger] v@[j] == LayeredVec::<T>::Element(elems[j]),
        0 <= i <= elems.len(),
    ensures
        flatten_from(v@, i) == elems.skip(i),
        paths_from(v@, i).len() == elems.len() - i,
        forall|j: int| #![trigger paths_from(v@, i)[j]]
            0 <= j < elems.len() - i ==> paths_from(v@, i)[j] == seq![(i + j) as usize],
    decreases elems.len() - i,
{
    assert(v@.len() == v.len());
    if i < elems.len() {
        lemma_flat_elements(v, elems, i + 1);
        assert(v@[i].flatten() == seq![elems[i]]);
        assert(elems.skip(i) =~= seq![elems[i]] + elems.skip(i + 1));
        let head = prefixed(seq![i as usize], v@[i].paths());
        assert(head =~= seq![seq![i as usize]]) by {
            assert(seq![i as usize] + Seq::<usize>::empty() =~= seq![i as usize]);
        }
        assert forall|j: int| 0 <= j < elems.len() - i implies #[trigger] paths_from(v@, i)[j]
            == seq![(i + j) as usize] by {
            if j > 0 {
                assert(paths_from(v@, i)[j] == paths_from(v@, i + 1)[j - 1]);
            }
        }
    } else {
        assert(elems.skip(i) =~= Seq::<T>::empty());
    }
}

/// The elements of items depend only on those items.
pub proof fn lemma_flatten_from_same_items<T>(a: Seq<LayeredVec<T>>, ia: int, b: Seq<LayeredVec<T>>, ib: int)
    requires
        0 <= ia <= a.len(),
        0 <= ib <= b.len(),
        a.skip(ia) == b.skip(ib),
    ensures
        flatten_from(a, ia) == flatten_from(b, ib),
    decreases a.len() - ia,
{
    assert(a.skip(ia).len() == a.len() - ia);
    assert(b.skip(ib).len() == b.len() - ib);
    if ia < a.len() {
        assert(ib < b.len());
        assert(a.skip(ia)[0] == a[ia]);
        assert(b.skip(ib)[0] == b[ib]);
        assert(a[ia] == b[ib]);
        assert(a.skip(ia + 1) =~= a.skip(ia).drop_first());
        assert(b.skip(ib + 1) =~= b.skip(ib).drop_first());
        lemma_flatten_from_same_items(a, ia + 1, b, ib + 1);
    } else {
        assert(b.skip(ib).len() == 0);
    }
}

/// Appending an item appends its elements.
pub proof fn lemma_flatten_push<T>(s: Seq<LayeredVec<T>>, i: int, y: LayeredVec<T>)
    requires
        0 <= i <= s.len(),
    ensures
        flatten_from(s.push(y), i) == flatten_from(s, i) + y.flatten(),
    decreases s.len() - i,
{
    if i < s.len() {
        lemma_flatten_push(s, i + 1, y);
        assert(s.push(y)[i] == s[i]);
        assert(flatten_from(s.push(y), i) =~= s[i].flatten() + (flatten_from(s, i + 1) + y.flatten()));
    } else {
        assert(s.push(y)[i] == y);
        assert(flatten_from(s.push(y), i + 1) =~= Seq::<T>::empty());
        assert(flatten_from(s, i) =~= Seq::<T>::empty());
        assert(flatten_from(s.push(y), i) =~= y.flatten());
    }
}

/// A sequence node has no empty path.
pub proof fn lemma_sequence_paths_nonempty<T>(s: Seq<LayeredVec<T>>, i: int, j: int)
    requires
        0 <= i,
        0 <= j < paths_from(s, i).len(),
    ensures
        paths_from(s, i)[j].len() >= 1,
    decreases s.len() - i,
{
    if i < s.len() {
        let head = prefixed(seq![i as usize], s[i].paths());
        if j >= head.len() {
            lemma_sequence_paths_nonempty(s, i + 1, j - head.len());
        }
    }
}

/// Every path of a sequence node has at least one index.
pub proof fn lemma_paths_nonempty<T>(lv: LayeredVec<T>, j: int)
    requires
        lv is Sequence,
        0 <= j < lv.paths().len(),
    ensures
        lv.paths()[j].len() >= 1,
{
    match lv {
        LayeredVec::Sequence(w) => {
            lemma_sequence_paths_nonempty(w@, 0, j);
        },
        LayeredVec::Element(_) => {},
    }
}

/// Finds the item of `s[i..]` that holds the `j`-th element of those items:
/// the item `c`, the element's position `jj` within it, and how the
/// elements of `s[i..]` change when that item is replaced or when a new
/// item is put before it.
pub proof fn lemma_locate<T>(s: Seq<LayeredVec<T>>, i: int, j: int) -> (r: (int, int))
    requires
        0 <= i <= s.len(),
        s.len() <= usize::MAX,
        0 <= j < flatten_from(s, i).len(),
    ensures
        ({
            let (c, jj) = r;
            let f = flatten_from(s, i);
            let off = j - jj;
            let len_c = s[c].flatten().len();
            &&& i <= c < s.len()
            &&& 0 <= jj < len_c
            &&& off == f.len() - flatten_from(s, c).len()
            &&& 0 <= off
            &&& off + len_c <= f.len()
            &&& f.subrange(off, off + len_c) == s[c].flatten()
            &&& paths_from(s, i).len() == f.len()
            &&& paths_from(s, i)[j] == seq![c as usize] + s[c].paths()[jj]
            &&& forall|y: LayeredVec<T>| #[trigger] flatten_from(s.update(c, y), i) == f.take(off)
                + y.flatten() + f.skip(off + len_c)
            &&& forall|y: LayeredVec<T>| #[trigger] flatten_from(s.insert(c, y), i) == f.take(off)
                + y.flatten() + f.skip(off)
        }),
    decreases s.len() - i,
{
    lemma_paths_from_len(s, i);
    let f = flatten_from(s, i);
    let head = s[i].flatten();
    lemma_paths_len(s[i]);
    let rest = flatten_from(s, i + 1);
    assert(f == head + rest);
    if j < head.len() {
        assert(f.subrange(0, head.len() as int) =~= head);
        assert(paths_from(s, i)[j] == seq![i as usize] + s[i].paths()[j]);
        assert forall|y: LayeredVec<T>| #[trigger] flatten_from(s.update(i, y), i) == f.take(0)
            + y.flatten() + f.skip(head.len() as int) by {
            let u = s.update(i, y);
            assert(u.skip(i + 1) =~= s.skip(i + 1));
            lemma_flatten_from_same_items(u, i + 1, s, i + 1);
            assert(f.skip(head.len() as int) =~= rest);
            assert(f.take(0) =~= Seq::<T>::empty());
            assert(flatten_from(u, i) =~= f.take(0) + y.flatten() + f.skip(head.len() as int));
        }
        assert forall|y: LayeredVec<T>| #[trigger] flatten_from(s.insert(i, y), i) == f.take(0)
            + y.flatten() + f.skip(0) by {
            let u = s.insert(i, y);
            assert(u.skip(i + 1) =~= s.skip(i));
            lemma_flatten_from_same_items(u, i + 1, s, i);
            assert(f.skip(0) =~= f);
            assert(f.take(0) =~= Seq::<T>::empty());
            assert(flatten_from(u, i) =~= f.take(0) + y.flatten() + f.skip(0));
        }
        (i, j)
    } else {
        let (c, jj) = lemma_locate(s, i + 1, j - head.len());
        let len_c = s[c].flatten().len();
        let off = j - jj;
        let off1 = off - head.len();
        assert(f.subrange(off, off + len_c) =~= rest.subrange(off1, off1 + len_c));
        assert(paths_from(s, i)[j] == paths_from(s, i + 1)[j - head.len()]);
        assert forall|y: LayeredVec<T>| #[trigger] flatten_from(s.update(c, y), i) == f.take(off)
            + y.flatten() + f.skip(off + len_c) by {
            let u = s.update(c, y);
            assert(u[i] == s[i]);
            assert(flatten_from(u, i + 1) == rest.take(off1) + y.flatten() + rest.skip(off1 + len_c));
            assert(f.take(off) =~= head + rest.take(off1));
            assert(f.skip(off + len_c) =~= rest.skip(off1 + len_c));
            assert(flatten_from(u, i) =~= f.take(off) + y.flatten() + f.skip(off + len_c));
        }
        assert forall|y: LayeredVec<T>| #[trigger] flatten_from(s.insert(c, y), i) == f.take(off)
            + y.flatten() + f.skip(off) by {
            let u = s.insert(c, y);
            assert(u[i] == s[i]);
            assert(flatten_from(u, i + 1) == rest.take(off1) + y.flatten() + rest.skip(off1));
            assert(f.take(off) =~= head + rest.take(off1));
            assert(f.skip(off) =~= rest.skip(off1));
            assert(flatten_from(u, i) =~= f.take(off) + y.flatten() + f.skip(off));
        }
        (c, jj)
    }
}

/// The paths of items depend only on those items and where they stand.
proof fn lemma_paths_from_same_items<T>(a: Seq<LayeredVec<T>>, b: Seq<LayeredVec<T>>, i: int)
    requires
        0 <= i <= a.len(),
        a.len() == b.len(),
        a.skip(i) == b.skip(i),
    ensures
        paths_from(a, i) == paths_from(b, i),
    decreases a.len() - i,
{
    if i < a.len() {
        assert(a.skip(i)[0] == a[i]);
        assert(b.skip(i)[0] == b[i]);
        assert(a.skip(i + 1) =~= a.skip(i).drop_first());
        assert(b.skip(i + 1) =~= b.skip(i).drop_first());
        lemma_paths_from_same_items(a, b, i + 1);
    }
}

/// Replacing the item `c` of `s[i..]` replaces the paths of its elements,
/// which stand together among those of `s[i..]`, and leaves the others.
proof fn lemma_paths_update<T>(s: Seq<LayeredVec<T>>, i: int, c: int, y: LayeredVec<T>)
    requires
        0 <= i <= c < s.len(),
    ensures
        ({
            let p = paths_from(s, i);
            let n = p.len() - paths_from(s, c).len();
            let len_c = s[c].paths().len();
            &&& 0 <= n
            &&& n + len_c <= p.len()
            &&& p.skip(n) == paths_from(s, c)
            &&& p.subrange(n, n + len_c) == prefixed(seq![c as usize], s[c].paths())
            &&& paths_from(s.update(c, y), i) == p.take(n) + prefixed(seq![c as usize], y.paths())
                + p.skip(n + len_c)
        }),
    decreases c - i,
{
    let u = s.update(c, y);
    let p = paths_from(s, i);
    if i == c {
        let head = prefixed(seq![c as usize], s[c].paths());
        let rest = paths_from(s, c + 1);
        assert(p == head + rest);
        assert(u.skip(c + 1) =~= s.skip(c + 1));
        lemma_paths_from_same_items(u, s, c + 1);
        assert(p.subrange(0, head.len() as int) =~= head);
        assert(p.take(0) =~= Seq::<Seq<usize>>::empty());
        assert(p.skip(0) =~= p);
        assert(p.skip(head.len() as int) =~= rest);
        assert(paths_from(u, i) =~= p.take(0) + prefixed(seq![c as usize], y.paths()) + p.skip(
            head.len() as int,
        ));
    } else {
        lemma_paths_update(s, i + 1, c, y);
        let head = prefixed(seq![i as usize], s[i].paths());
        let rest = paths_from(s, i + 1);
        assert(p == head + rest);
        assert(u[i] == s[i]);
        let n1 = rest.len() - paths_from(s, c).len();
        let len_c = s[c].paths().len();
        assert(p.subrange(head.len() + n1, head.len() + n1 + len_c) =~= rest.subrange(n1, n1 + len_c));
        assert(p.skip(head.len() + n1) =~= rest.skip(n1));
        assert(p.take(head.len() + n1) =~= head + rest.take(n1));
        assert(p.skip(head.len() + n1 + len_c) =~= rest.skip(n1 + len_c));
        assert(paths_from(u, i) =~= p.take(head.len() + n1) + prefixed(seq![c as usize], y.paths())
            + p.skip(head.len() + n1 + len_c));
    }
}

/// `r` with its index just past the prefix `q` one higher, when `r` starts
/// with `q` and runs on past it; otherwise `r` itself.
pub open spec fn shifted(r: Seq<usize>, q: Seq<usize>) -> Seq<usize> {
    if r.len() > q.len() && r.take(q.len() as int) == q {
        r.update(q.len() as int, (r[q.len() as int] + 1) as usize)
    } else {
        r
    }
}

/// Every path of the items `s[k..]` starts with the index of its item.
proof fn lemma_paths_from_first<T>(s: Seq<LayeredVec<T>>, k: int)
    requires
        0 <= k,
        s.len() <= usize::MAX,
    ensures
        forall|x: int| #![trigger paths_from(s, k)[x]]
            0 <= x < paths_from(s, k).len() ==> paths_from(s, k)[x].len() >= 1 && k
                <= paths_from(s, k)[x][0] < s.len(),
    decreases s.len() - k,
{
    if k < s.len() {
        lemma_paths_from_first(s, k + 1);
        let head = prefixed(seq![k as usize], s[k].paths());
        assert forall|x: int| 0 <= x < paths_from(s, k).len() implies #[trigger] paths_from(s, k)[x].len()
            >= 1 && k <= paths_from(s, k)[x][0] < s.len() by {
            if x < head.len() {
                assert(paths_from(s, k)[x] == seq![k as usize] + s[k].paths()[x]);
            } else {
                assert(paths_from(s, k)[x] == paths_from(s, k + 1)[x - head.len()]);
            }
        }
    }
}

/// Items put after a new item have their paths start one index higher.
proof fn lemma_paths_insert_tail<T>(s: Seq<LayeredVec<T>>, c: int, y: LayeredVec<T>, k: int)
    requires
        0 <= c <= k <= s.len(),
        s.len() <= usize::MAX,
    ensures
        paths_from(s.insert(c, y), k + 1) == paths_from(s, k).map_values(
            |r: Seq<usize>| shifted(r, Seq::<usize>::empty()),
        ),
    decreases s.len() - k,
{
    let t = s.insert(c, y);
    let f = |r: Seq<usize>| shifted(r, Seq::<usize>::empty());
    if k < s.len() {
        lemma_paths_insert_tail(s, c, y, k + 1);
        assert(t[k + 1] == s[k]);
        let x = s[k].paths();
        assert(prefixed(seq![k as usize], x).map_values(f) =~= prefixed(seq![(k + 1) as usize], x)) by {
            assert forall|i: int| 0 <= i < x.len() implies #[trigger] f(seq![k as usize] + x[i]) == seq![
                (k + 1) as usize,
            ] + x[i] by {
                let r = seq![k as usize] + x[i];
                assert(r.take(0) =~= Seq::<usize>::empty());
                assert(r.update(0, (r[0] + 1) as usize) =~= seq![(k + 1) as usize] + x[i]);
            }
        }
        assert(paths_from(s, k) == prefixed(seq![k as usize], x) + paths_from(s, k + 1));
        assert(paths_from(t, k + 1) == prefixed(seq![(k + 1) as usize], x) + paths_from(t, k + 2));
        assert(paths_from(s, k).map_values(f) =~= prefixed(seq![k as usize], x).map_values(f)
            + paths_from(s, k + 1).map_values(f));
    } else {
        assert(paths_from(s, k).map_values(f) =~= Seq::<Seq<usize>>::empty());
        assert(paths_from(t, k + 1) =~= Seq::<Seq<usize>>::empty());
    }
}

/// The paths of the items `s[i..]` once a new item `y` is put at `c`: those
/// of the items before it, the new item's, then the others shifted.
pub proof fn lemma_paths_insert<T>(s: Seq<LayeredVec<T>>, i: int, c: int, y: LayeredVec<T>)
    requires
        0 <= i <= c <= s.len(),
        s.len() <= usize::MAX,
    ensures
        ({
            let p = paths_from(s, i);
            let n = p.len() - paths_from(s, c).len();
            &&& 0 <= n <= p.len()
            &&& p.skip(n) == paths_from(s, c)
            &&& paths_from(s.insert(c, y), i) == p.take(n) + prefixed(seq![c as usize], y.paths())
                + paths_from(s, c).map_values(|r: Seq<usize>| shifted(r, Seq::<usize>::empty()))
        }),
    decreases c - i,
{
    let t = s.insert(c, y);
    let p = paths_from(s, i);
    if i == c {
        lemma_paths_insert_tail(s, c, y, c);
        assert(t[c] == y);
        assert(p.skip(0) =~= p);
        assert(p.take(0) =~= Seq::<Seq<usize>>::empty());
        assert(paths_from(t, i) =~= p.take(0) + prefixed(seq![c as usize], y.paths()) + paths_from(
            s,
            c,
        ).map_values(|r: Seq<usize>| shifted(r, Seq::<usize>::empty())));
    } else {
        lemma_paths_insert(s, i + 1, c, y);
        let head = prefixed(seq![i as usize], s[i].paths());
        let rest = paths_from(s, i + 1);
        assert(t[i] == s[i]);
        assert(p == head + rest);
        let n1 = rest.len() - paths_from(s, c).len();
        assert(p.skip(head.len() + n1) =~= rest.skip(n1));
        assert(p.take(head.len() + n1) =~= head + rest.take(n1));
        assert(paths_from(t, i) =~= p.take(head.len() + n1) + prefixed(seq![c as usize], y.paths())
            + paths_from(s, c).map_values(|r: Seq<usize>| shifted(r, Seq::<usize>::empty())));
    }
}

/// Putting an item into the item `c`, before its `jj`-th element, puts it
/// before the `j`-th element of the items, and shifts the later paths of
/// that level.
proof fn lemma_paths_after_insert<T>(
    s: Seq<LayeredVec<T>>,
    c: int,
    jj: int,
    j: int,
    y: LayeredVec<T>,
    item: LayeredVec<T>,
)
    requires
        0 <= c < s.len(),
        s.len() <= usize::MAX,
        0 <= jj < s[c].paths().len(),
        s[c].paths()[jj].len() >= 1,
        j == paths_from(s, 0).len() - paths_from(s, c).len() + jj,
        y.paths() == s[c].paths().take(jj) + prefixed(s[c].paths()[jj], item.paths()) + s[c].paths().skip(
            jj,
        ).map_values(|r: Seq<usize>| shifted(r, s[c].paths()[jj].drop_last())),
    ensures
        paths_from(s.update(c, y), 0) == paths_from(s, 0).take(j) + prefixed(
            paths_from(s, 0)[j],
            item.paths(),
        ) + paths_from(s, 0).skip(j).map_values(
            |r: Seq<usize>| shifted(r, paths_from(s, 0)[j].drop_last()),
        ),
{
    lemma_paths_update(s, 0, c, y);
    lemma_paths_from_first(s, c + 1);
    let ps = paths_from(s, 0);
    let cp = s[c].paths();
    let n = j - jj;
    let len_c = cp.len();
    let head = seq![c as usize];
    let x = item.paths();
    let q1 = cp[jj].drop_last();
    let q = ps[j].drop_last();
    let g1 = |r: Seq<usize>| shifted(r, q1);
    let g = |r: Seq<usize>| shifted(r, q);
    assert(ps.subrange(n, n + len_c) == prefixed(head, cp));
    assert(ps[j] == head + cp[jj]) by {
        assert(ps[j] == ps.subrange(n, n + len_c)[jj]);
    }
    assert(q =~= head + q1);
    assert(ps.take(n) + prefixed(head, cp.take(jj)) =~= ps.take(j)) by {
        assert forall|k: int| n <= k < j implies #[trigger] ps[k] == head + cp[k - n] by {
            assert(ps[k] == ps.subrange(n, n + len_c)[k - n]);
        }
    }
    assert(prefixed(head, prefixed(cp[jj], x)) =~= prefixed(ps[j], x)) by {
        assert forall|i: int| 0 <= i < x.len() implies head + (cp[jj] + x[i]) == ps[j] + x[i] by {
            assert(head + (cp[jj] + x[i]) =~= (head + cp[jj]) + x[i]);
        }
    }
    assert(prefixed(head, cp.skip(jj).map_values(g1)) =~= ps.subrange(j, n + len_c).map_values(g)) by {
        assert forall|i: int| 0 <= i < len_c - jj implies #[trigger] prefixed(head, cp.skip(jj).map_values(g1))[i]
            == ps.subrange(j, n + len_c).map_values(g)[i] by {
            let r = cp[jj + i];
            let hr = head + r;
            if r.len() > q1.len() {
                if r.take(q1.len() as int) == q1 {
                    assert(hr.take(q.len() as int) =~= q);
                    assert(head + r.update(q1.len() as int, (r[q1.len() as int] + 1) as usize) =~= hr.update(
                        q.len() as int,
                        (hr[q.len() as int] + 1) as usize,
                    ));
                } else {
                    if hr.take(q.len() as int) == q {
                        assert forall|k: int| 0 <= k < q1.len() implies r[k] == q1[k] by {
                            assert(hr.take(q.len() as int)[k + 1] == q[k + 1]);
                        }
                        assert(r.take(q1.len() as int) =~= q1);
                    }
                }
            }
            assert(ps.subrange(n, n + len_c)[jj + i] == head + cp[jj + i]);
        }
    }
    assert(ps.skip(n + len_c) =~= paths_from(s, c + 1)) by {
        assert(paths_from(s, c) == prefixed(head, cp) + paths_from(s, c + 1));
        assert(ps.skip(n) == paths_from(s, c));
        assert(ps.skip(n + len_c) =~= ps.skip(n).skip(len_c as int));
        assert((prefixed(head, cp) + paths_from(s, c + 1)).skip(len_c as int) =~= paths_from(s, c + 1));
    }
    assert(ps.skip(n + len_c).map_values(g) =~= ps.skip(n + len_c)) by {
        assert forall|i: int| 0 <= i < ps.skip(n + len_c).len() implies #[trigger] g(ps.skip(n + len_c)[i])
            == ps.skip(n + len_c)[i] by {
            let r = paths_from(s, c + 1)[i];
            assert(r[0] != c);
            if r.len() > q.len() && r.take(q.len() as int) == q {
                assert(r.take(q.len() as int)[0] == q[0]);
            }
        }
    }
    assert(ps.skip(j).map_values(g) =~= ps.subrange(j, n + len_c).map_values(g) + ps.skip(n + len_c).map_values(g));
    assert(paths_from(s.update(c, y), 0) =~= ps.take(j) + prefixed(ps[j], x) + ps.skip(j).map_values(g));
}

/// The node above a node that a path leads to is a sequence that holds it.
pub proof fn lemma_at_parent<T>(lv: LayeredVec<T>, p: Seq<usize>)
    requires
        p.len() >= 1,
        lv.at(p) is Some,
    ensures
        lv.at(p.drop_last()) matches Some(LayeredVec::Sequence(w)) && p.last() < w@.len()
            && w@[p.last() as int] == lv.at(p).unwrap(),
    decreases p.len(),
{
    match lv {
        LayeredVec::Sequence(v) => {
            if p.len() == 1 {
                assert(p.drop_last() =~= Seq::<usize>::empty());
                assert(p.drop_first() =~= Seq::<usize>::empty());
            } else {
                lemma_at_parent(v@[p[0] as int], p.drop_first());
                assert(p.drop_last().drop_first() =~= p.drop_first().drop_last());
                assert(p.drop_last()[0] == p[0]);
            }
        },
        LayeredVec::Element(_) => {},
    }
}

/// The number of items of a node: those of a sequence, none for an element.
pub open spec fn child_count<T>(lv: LayeredVec<T>) -> nat {
    match lv {
        LayeredVec::Sequence(v) => v@.len(),
        LayeredVec::Element(_) => 0,
    }
}

/// Puts `item` just before the `j`-th element, among that element's
/// siblings; `path` from position `d` on is the element's path.
pub fn insert_before_path<T>(
    node: &mut LayeredVec<T>,
    path: &[usize],
    d: usize,
    item: LayeredVec<T>,
    Ghost(j): Ghost<int>,
)
    requires
        d < path@.len(),
        0 <= j < old(node).flatten().len(),
        old(node).paths().len() == old(node).flatten().len(),
        old(node).paths()[j] == path@.skip(d as int),
    ensures
        final(node).flatten() == old(node).flatten().take(j) + item.flatten() + old(node).flatten().skip(j),
        final(node).paths() == old(node).paths().take(j) + prefixed(old(node).paths()[j], item.paths())
            + old(node).paths().skip(j).map_values(
            |r: Seq<usize>| shifted(r, old(node).paths()[j].drop_last()),
        ),
        *final(node) is Sequence,
    decreases path@.len() - d,
{
    proof {
        assert(path@.skip(d as int).len() >= 1);
    }
    match node {
        LayeredVec::Sequence(v) => {
            let ghost s = v@;
            proof {
                assert(s.len() == v.len());
            }
            let ghost (c, jj) = lemma_locate(s, 0, j);
            let i = path[d];
            proof {
                assert(path@.skip(d as int)[0] == i);
                assert(i == c);
                assert(path@.skip(d as int).drop_first() =~= path@.skip(d + 1));
                lemma_paths_len(s[c]);
            }
            if d + 1 == path.len() {
                proof {
                    assert(path@.skip(d + 1).len() == 0);
                    match s[c] {
                        LayeredVec::Sequence(w) => {
                            lemma_paths_from_len(w@, 0);
                            lemma_sequence_paths_nonempty(w@, 0, jj);
                        },
                        LayeredVec::Element(_) => {},
                    }
                    assert(s[c].flatten().len() == 1);
                    assert(jj == 0);
                }
                let ghost it = item;
                v.insert(i, item);
                proof {
                    assert(v@ == s.insert(c, it));
                    let f = flatten_from(s, 0);
                    assert(flatten_from(s.insert(c, it), 0) == f.take(j) + it.flatten() + f.skip(j));
                    assert(flatten_from(v@, 0) == f.take(j) + it.flatten() + f.skip(j));
                    lemma_paths_from_len(s, 0);
                    lemma_paths_from_len(s, c);
                    lemma_paths_insert(s, 0, c, it);
                    let ps = paths_from(s, 0);
                    assert(ps[j] == path@.skip(d as int));
                    assert(ps[j] =~= seq![c as usize]);
                    assert(ps[j].drop_last() =~= Seq::<usize>::empty());
                    assert(paths_from(v@, 0) == ps.take(j) + prefixed(ps[j], it.paths()) + ps.skip(
                        j,
                    ).map_values(|r: Seq<usize>| shifted(r, ps[j].drop_last())));
                }
            } else {
                proof {
                    assert(s[c].paths()[jj] == path@.skip(d + 1));
                }
                let ghost before = v@;
                let ghost it = item;
                insert_before_path(&mut v[i], path, d + 1, item, Ghost(jj));
                proof {
                    assert(v@ == s.update(c, v@[c as int]));
                    let f = flatten_from(s, 0);
                    let off = j - jj;
                    let fc = s[c].flatten();
                    let nc = v@[c as int].flatten();
                    assert(nc == fc.take(jj) + item.flatten() + fc.skip(jj));
                    assert(f.subrange(off, off + fc.len()) == fc);
                    assert(f.take(off) + nc + f.skip(off + fc.len()) =~= f.take(j) + item.flatten()
                        + f.skip(j));
                    assert(flatten_from(s.update(c, v@[c as int]), 0) == f.take(off) + nc + f.skip(off + fc.len()));
                    assert(flatten_from(v@, 0) == f.take(j) + item.flatten() + f.skip(j));
                    lemma_paths_from_len(s, 0);
                    lemma_paths_from_len(s, c);
                    assert(s[c].paths()[jj].len() >= 1);
                    lemma_paths_after_insert(s, c, jj, j, v@[c as int], it);
                }
            }
        },
        LayeredVec::Element(_) => {
            proof {
                assert(old(node).paths()[j] =~= Seq::<usize>::empty());
            }
        },
    }
}

/// Replaces the `j`-th element by a sequence of two elements: a new one,
/// before it when `new_first` and after it otherwise, and itself. `path`
/// from position `d` on is the element's path.
pub fn split_element_at_path<T: Copy>(
    node: &mut LayeredVec<T>,
    path: &[usize],
    d: usize,
    new: T,
    new_first: bool,
    Ghost(j): Ghost<int>,
)
    requires
        d <= path@.len(),
        0 <= j < old(node).flatten().len(),
        old(node).paths().len() == old(node).flatten().len(),
        old(node).paths()[j] == path@.skip(d as int),
    ensures
        final(node).flatten() == old(node).flatten().take(j) + (if new_first {
            seq![new, old(node).flatten()[j]]
        } else {
            seq![old(node).flatten()[j], new]
        }) + old(node).flatten().skip(j + 1),
        final(node).paths() == old(node).paths().take(j) + seq![
            old(node).paths()[j].push(0),
            old(node).paths()[j].push(1),
        ] + old(node).paths().skip(j + 1),
        *old(node) is Sequence ==> *final(node) is Sequence,
    decreases path@.len() - d,
{
    let ghost f = old(node).flatten();
    let ghost pair = if new_first {
        seq![new, f[j]]
    } else {
        seq![f[j], new]
    };
    if d == path.len() {
        proof {
            assert(path@.skip(d as int).len() == 0);
            match *old(node) {
                LayeredVec::Sequence(w) => {
                    lemma_paths_from_len(w@, 0);
                    lemma_sequence_paths_nonempty(w@, 0, j);
                },
                LayeredVec::Element(_) => {},
            }
        }
        match node {
            LayeredVec::Element(e) => {
                let e: T = *e;
                let mut parts: Vec<LayeredVec<T>> = Vec::new();
                if new_first {
                    parts.push(LayeredVec::Element(new));
                    parts.push(LayeredVec::Element(e));
                } else {
                    parts.push(LayeredVec::Element(e));
                    parts.push(LayeredVec::Element(new));
                }
                proof {
                    assert(f =~= seq![e]);
                    assert(j == 0);
                    let elems = if new_first { seq![new, e] } else { seq![e, new] };
                    lemma_flat_elements(parts, elems, 0);
                    assert(elems.skip(0) =~= elems);
                    assert(f.take(0) + pair + f.skip(1) =~= pair);
                    let old_paths = old(node).paths();
                    assert(old_paths[0] =~= Seq::<usize>::empty());
                    assert(paths_from(parts@, 0)[0] == seq![0usize]);
                    assert(paths_from(parts@, 0)[1] == seq![1usize]);
                    assert(paths_from(parts@, 0) =~= old_paths.take(0) + seq![
                        old_paths[0].push(0),
                        old_paths[0].push(1),
                    ] + old_paths.skip(1));
                }
                *node = LayeredVec::Sequence(parts);
            },
            LayeredVec::Sequence(_) => {},
        }
    } else {
        match node {
            LayeredVec::Sequence(v) => {
                let ghost s = v@;
                proof {
                    assert(s.len() == v.len());
                }
                let ghost (c, jj) = lemma_locate(s, 0, j);
                let i = path[d];
                proof {
                    assert(path@.skip(d as int)[0] == i);
                    assert(i == c);
                    assert(path@.skip(d as int).drop_first() =~= path@.skip(d + 1));
                    lemma_paths_len(s[c]);
                    assert(s[c].paths()[jj] == path@.skip(d + 1));
                }
                split_element_at_path(&mut v[i], path, d + 1, new, new_first, Ghost(jj));
                proof {
                    assert(v@ == s.update(c, v@[c as int]));
                    let off = j - jj;
                    let fc = s[c].flatten();
                    let nc = v@[c as int].flatten();
                    assert(f.subrange(off, off + fc.len()) == fc);
                    assert(fc[jj] == f[j]);
                    assert(f.take(off) + nc + f.skip(off + fc.len()) =~= f.take(j) + pair + f.skip(j + 1));
                    assert(flatten_from(s.update(c, v@[c as int]), 0) == f.take(off) + nc + f.skip(off + fc.len()));
                    assert(flatten_from(v@, 0) == f.take(j) + pair + f.skip(j + 1));
                    lemma_paths_from_len(s, 0);
                    lemma_paths_from_len(s, c);
                    lemma_paths_after_split(s, c, jj, j, v@[c as int]);
                }
            },
            LayeredVec::Element(_) => {
                proof {
                    assert(old(node).paths()[j] =~= Seq::<usize>::empty());
                }
            },
        }
    }
}

/// Splitting the `jj`-th element of the item `c` in two splits the `j`-th
/// path of the items in two, one level deeper.
proof fn lemma_paths_after_split<T>(s: Seq<LayeredVec<T>>, c: int, jj: int, j: int, y: LayeredVec<T>)
    requires
        0 <= c < s.len(),
        0 <= jj < s[c].paths().len(),
        j == paths_from(s, 0).len() - paths_from(s, c).len() + jj,
        y.paths() == s[c].paths().take(jj) + seq![
            s[c].paths()[jj].push(0),
            s[c].paths()[jj].push(1),
        ] + s[c].paths().skip(jj + 1),
    ensures
        paths_from(s.update(c, y), 0) == paths_from(s, 0).take(j) + seq![
            paths_from(s, 0)[j].push(0),
            paths_from(s, 0)[j].push(1),
        ] + paths_from(s, 0).skip(j + 1),
{
    lemma_paths_update(s, 0, c, y);
    let ps = paths_from(s, 0);
    let cp = s[c].paths();
    let off = j - jj;
    let head = seq![c as usize];
    assert(ps.subrange(off, off + cp.len()) == prefixed(head, cp));
    assert(ps[j] == head + cp[jj]) by {
        assert(ps[j] == ps.subrange(off, off + cp.len())[jj]);
    }
    assert((head + cp[jj]).push(0) =~= head + cp[jj].push(0));
    assert((head + cp[jj]).push(1) =~= head + cp[jj].push(1));
    assert(prefixed(head, y.paths()) =~= prefixed(head, cp).take(jj) + seq![
        ps[j].push(0),
        ps[j].push(1),
    ] + prefixed(head, cp).skip(jj + 1));
    assert(ps.take(off) + prefixed(head, cp).take(jj) =~= ps.take(j));
    assert(prefixed(head, cp).skip(jj + 1) + ps.skip(off + cp.len()) =~= ps.skip(j + 1));
    assert(paths_from(s.update(c, y), 0) =~= ps.take(j) + seq![ps[j].push(0), ps[j].push(1)]
        + ps.skip(j + 1));
}

/// Walks the elements of a `LayeredVec` depth first.
pub struct LayeredVecIter<'a, T>(Vec<&'a LayeredVec<T>>);

impl<'a, T> LayeredVecIter<'a, T> {
    /// The elements that the iterator has still to give.
    pub closed spec fn remaining(&self) -> Seq<T> {
        stack_elements(self.0@)
    }

    /// Gives the next element, or `None` when all have been given.
    /// What one call of `next` does: from `before` it gives `r` and leaves
    /// `after`. The next element comes, and the rest remain; once none
    /// remains, `None` comes and none remains.
    pub open spec fn step(before: Self, r: Option<&'a T>, after: Self) -> bool {
        &&& before.remaining().len() == 0 ==> r is None && after.remaining().len() == 0
        &&& before.remaining().len() > 0 ==> {
            &&& r matches Some(e) && *e == before.remaining()[0]
            &&& after.remaining() == before.remaining().drop_first()
        }
    }

    pub fn next(&mut self) -> (r: Option<&'a T>)
        ensures
            Self::step(*old(self), r, *final(self)),
    {
        let ghost goal = self.remaining();
        loop
            invariant
                stack_elements(self.0@) == goal,
                goal == old(self).remaining(),
            decreases stack_size(self.0@),
        {
            let ghost before = self.0@;
            match self.0.pop() {
                None => {
                    return None;
                },
                Some(current) => {
                    assert(before.drop_last() =~= self.0@);
                    match current {
                        LayeredVec::Element(elem) => {
                            assert(goal =~= seq![*elem] + stack_elements(self.0@));
                            assert(goal.drop_first() =~= stack_elements(self.0@));
                            return Some(elem);
                        },
                        LayeredVec::Sequence(seq) => {
                            let ghost base = self.0@;
                            let mut i = seq.len();
                            while i > 0
                                invariant
                                    i <= seq@.len(),
                                    stack_elements(self.0@) == flatten_from(seq@, i as int)
                                        + stack_elements(base),
                                    stack_size(self.0@) == size_from(seq@, i as int) + stack_size(
                                        base,
                                    ),
                                decreases i,
                            {
                                let ghost prev = self.0@;
                                i = i - 1;
                                self.0.push(&seq[i]);
                                assert(self.0@.drop_last() =~= prev);
                            }
                            assert(flatten_from(seq@, 0) + stack_elements(base) =~= goal);
                        },
                    }
                },
            }
        }
    }
}

/// Walks the paths of the elements of a `LayeredVec` depth first.
pub struct PathIter<'a, T> {
    stack: Vec<(&'a LayeredVec<T>, Vec<usize>)>,
}

impl<'a, T> PathIter<'a, T> {
    /// The paths that the iterator has still to give.
    pub closed spec fn remaining(&self) -> Seq<Seq<usize>> {
        stack_paths(self.stack@)
    }

    /// An iterator over the paths of the elements of `root`.
    pub fn new(root: &'a LayeredVec<T>) -> (r: Self)
        ensures
            r.remaining() == root.paths(),
    {
        let r = PathIter { stack: vec![(root, Vec::new())] };
        assert(r.stack@.len() == 1);
        assert(r.stack@.last().1@ =~= Seq::<usize>::empty());
        assert(stack_paths(Seq::<(&LayeredVec<T>, Vec<usize>)>::empty()) =~= Seq::<Seq<usize>>::empty());
        assert(r.stack@.drop_last() =~= Seq::<(&LayeredVec<T>, Vec<usize>)>::empty());
        assert(prefixed(Seq::<usize>::empty(), root.paths()) =~= root.paths());
        r
    }

    /// Gives the next path, or `None` when all have been given.
    /// What one call of `next` does: from `before` it gives `r` and leaves
    /// `after`. The next path comes, and the rest remain; once none
    /// remains, `None` comes and none remains.
    pub open spec fn step(before: Self, r: Option<Vec<usize>>, after: Self) -> bool {
        &&& before.remaining().len() == 0 ==> r is None && after.remaining().len() == 0
        &&& before.remaining().len() > 0 ==> {
            &&& r matches Some(p) && p@ == before.remaining()[0]
            &&& after.remaining() == before.remaining().drop_first()
        }
    }

    pub fn next(&mut self) -> (r: Option<Vec<usize>>)
        ensures
            Self::step(*old(self), r, *final(self)),
    {
        let ghost goal = self.remaining();
        loop
            invariant
                stack_paths(self.stack@) == goal,
                goal == old(self).remaining(),
            decreases path_stack_size(self.stack@),
        {
            let ghost before = self.stack@;
            match self.stack.pop() {
                None => {
                    return None;
                },
                Some(current) => {
                    assert(before.drop_last() =~= self.stack@);
                    let (node, prefix) = current;
                    match node {
                        LayeredVec::Element(_) => {
                            assert(prefixed(prefix@, node.paths()) =~= seq![prefix@]);
                            assert(goal =~= seq![prefix@] + stack_paths(self.stack@));
                            assert(goal.drop_first() =~= stack_paths(self.stack@));
                            return Some(prefix);
                        },
                        LayeredVec::Sequence(seq) => {
                            let ghost base = self.stack@;
                            let mut i = seq.len();
                            while i > 0
                                invariant
                                    i <= seq@.len(),
                                    stack_paths(self.stack@) == prefixed(
                                        prefix@,
                                        paths_from(seq@, i as int),
                                    ) + stack_paths(base),
                                    path_stack_size(self.stack@) == size_from(seq@, i as int)
                                        + path_stack_size(base),
                                decreases i,
                            {
                                let ghost prev = self.stack@;
                                i = i - 1;
                                let mut path = prefix.clone();
                                assert(path@ =~= prefix@);
                                path.push(i);
                                self.stack.push((&seq[i], path));
                                assert(self.stack@.drop_last() =~= prev);
                                proof { lemma_prefixed_step(prefix@, seq@, i as int); }
                            }
                            assert(prefixed(prefix@, paths_from(seq@, 0)) =~= prefixed(
                                prefix@,
                                node.paths(),
                            ));
                        },
                    }
                },
            }
        }
    }
}

proof fn lemma_prefixed_step<T>(prefix: Seq<usize>, s: Seq<LayeredVec<T>>, i: int)
    requires
        0 <= i < s.len(),
    ensures
        prefixed(prefix, paths_from(s, i)) == prefixed(prefix.push(i as usize), s[i].paths())
            + prefixed(prefix, paths_from(s, i + 1)),
{
    let a = prefixed(seq![i as usize], s[i].paths());
    let b = paths_from(s, i + 1);
    assert(paths_from(s, i) == a + b);
    assert forall|k: int| 0 <= k < a.len() implies prefix + #[trigger] a[k] == prefix.push(
        i as usize,
    ) + s[i].paths()[k] by {
        assert(prefix + (seq![i as usize] + s[i].paths()[k]) =~= prefix.push(i as usize)
            + s[i].paths()[k]);
    }
    assert(prefixed(prefix, a + b) =~= prefixed(prefix.push(i as usize), s[i].paths())
        + prefixed(prefix, b));
}

impl<T> LayeredVec<T> {
    /// An empty sequence.
    pub fn new() -> (r: Self)
        ensures
            r matches LayeredVec::Sequence(v) && v@.len() == 0,
            r.flatten().len() == 0,
    {
        LayeredVec::Sequence(Vec::new())
    }

    /// An iterator over the elements, depth first.
    pub fn iter(&self) -> (r: LayeredVecIter<'_, T>)
        ensures
            r.remaining() == self.flatten(),
    {
        let r = LayeredVecIter(vec![self]);
        assert(r.0@ =~= seq![self]);
        assert(r.0@.drop_last() =~= Seq::<&LayeredVec<T>>::empty());
        assert(stack_elements(Seq::<&LayeredVec<T>>::empty()) =~= Seq::<T>::empty());
        assert(self.flatten() + Seq::<T>::empty() =~= self.flatten());
        r
    }

    /// An iterator over the paths of the elements, depth first.
    pub fn path_iter(&self) -> (r: PathIter<'_, T>)
        ensures
            r.remaining() == self.paths(),
    {
        PathIter::new(self)
    }
}

impl<T> Default for LayeredVec<T> {
    /// An empty sequence.
    fn default() -> (r: Self)
        ensures
            r matches LayeredVec::Sequence(v) && v@.len() == 0,
            r.flatten().len() == 0,
    {
        LayeredVec::new()
    }
}

/// `a` comes before `b` in lexicographic order, at an index where both
/// run on: neither is a prefix of the other.
pub open spec fn lex_before(a: Seq<usize>, b: Seq<usize>) -> bool {
    exists|i: int| 0 <= i < a.len() && i < b.len() && a.take(i) == b.take(i) && #[trigger] a[i] < b[i]
}

/// The paths of the elements rise strictly in lexicographic order; so no
/// two are the same and none is a prefix of another.
pub proof fn lemma_paths_increase<T>(lv: LayeredVec<T>)
    ensures
        forall|j: int, k: int|
            #![trigger lv.paths()[j], lv.paths()[k]]
            0 <= j < k < lv.paths().len() ==> lex_before(lv.paths()[j], lv.paths()[k]),
    decreases lv,
{
    match lv {
        LayeredVec::Element(_) => {
            assert(lv.paths().len() == 1);
            assert forall|j: int, k: int| 0 <= j < k < lv.paths().len() implies lex_before(
                #[trigger] lv.paths()[j],
                #[trigger] lv.paths()[k],
            ) by {}
        },
        LayeredVec::Sequence(v) => {
            assert(v@.len() == v.len());
            lemma_paths_from_increase(v@, 0);
            assert(lv.paths() == paths_from(v@, 0));
            assert forall|j: int, k: int| 0 <= j < k < lv.paths().len() implies lex_before(
                #[trigger] lv.paths()[j],
                #[trigger] lv.paths()[k],
            ) by {
                assert(lex_before(paths_from(v@, 0)[j], paths_from(v@, 0)[k]));
            }
        },
    }
}

proof fn lemma_paths_from_increase<T>(s: Seq<LayeredVec<T>>, i: int)
    requires
        0 <= i,
        s.len() <= usize::MAX,
    ensures
        forall|j: int, k: int|
            #![trigger paths_from(s, i)[j], paths_from(s, i)[k]]
            0 <= j < k < paths_from(s, i).len() ==> lex_before(paths_from(s, i)[j], paths_from(s, i)[k]),
    decreases s, s.len() - i,
{
    if i < s.len() {
        lemma_paths_increase(s[i]);
        lemma_paths_from_increase(s, i + 1);
        lemma_paths_from_first(s, i + 1);
        let x = s[i].paths();
        let head = prefixed(seq![i as usize], x);
        let rest = paths_from(s, i + 1);
        let p = paths_from(s, i);
        assert(p == head + rest);
        assert forall|j: int, k: int| 0 <= j < k < p.len() implies #[trigger] lex_before(p[j], p[k]) by {
            if k < head.len() {
                let a = x[j];
                let b = x[k];
                assert(lex_before(a, b));
                let w = choose|w: int| 0 <= w < a.len() && w < b.len() && a.take(w) == b.take(w) && #[trigger] a[w] < b[w];
                assert(p[j] == seq![i as usize] + a);
                assert(p[k] == seq![i as usize] + b);
                assert(p[j].take(w + 1) =~= seq![i as usize] + a.take(w));
                assert(p[k].take(w + 1) =~= seq![i as usize] + b.take(w));
                assert(p[j][w + 1] < p[k][w + 1]);
            } else if j < head.len() {
                assert(p[j] == seq![i as usize] + x[j]);
                assert(p[k] == rest[k - head.len()]);
                assert(p[j].take(0) =~= p[k].take(0));
                assert(p[j][0] < p[k][0]);
            } else {
                assert(p[j] == rest[j - head.len()]);
                assert(p[k] == rest[k - head.len()]);
                assert(lex_before(rest[j - head.len()], rest[k - head.len()]));
            }
        }
    }
}

/// A walk over the elements of `lv`: starting from what `iter` gives, one
/// call of `next` after another gives the elements of `lv` in depth-first
/// order, each once, and after the last, `None` at every call.
pub proof fn lemma_iter_walk<'a, T>(
    lv: LayeredVec<T>,
    its: Seq<LayeredVecIter<'a, T>>,
    rs: Seq<Option<&'a T>>,
)
    requires
        its.len() == rs.len() + 1,
        its[0].remaining() == lv.flatten(),
        forall|k: int| 0 <= k < rs.len() ==> LayeredVecIter::step(its[k], #[trigger] rs[k], its[k + 1]),
    ensures
        forall|k: int|
            0 <= k < rs.len() && k < lv.flatten().len() ==> (#[trigger] rs[k] matches Some(e) && *e
                == lv.flatten()[k]),
        forall|k: int| 0 <= k < rs.len() && k >= lv.flatten().len() ==> #[trigger] rs[k] is None,
{
    let f = lv.flatten();
    assert forall|k: int| 0 <= k < its.len() implies #[trigger] its[k].remaining() == (if k <= f.len() {
        f.skip(k)
    } else {
        Seq::<T>::empty()
    }) by {
        lemma_iter_walk_at(lv, its, rs, k);
    }
    assert forall|k: int| 0 <= k < rs.len() implies (k < f.len() ==> (#[trigger] rs[k] matches Some(e) && *e
        == f[k])) && (k >= f.len() ==> rs[k] is None) by {
        assert(LayeredVecIter::step(its[k], rs[k], its[k + 1]));
        assert(its[k].remaining() == (if k <= f.len() { f.skip(k) } else { Seq::<T>::empty() }));
    }
}

proof fn lemma_iter_walk_at<'a, T>(
    lv: LayeredVec<T>,
    its: Seq<LayeredVecIter<'a, T>>,
    rs: Seq<Option<&'a T>>,
    k: int,
)
    requires
        its.len() == rs.len() + 1,
        its[0].remaining() == lv.flatten(),
        forall|k: int| 0 <= k < rs.len() ==> LayeredVecIter::step(its[k], #[trigger] rs[k], its[k + 1]),
        0 <= k < its.len(),
    ensures
        its[k].remaining() == (if k <= lv.flatten().len() {
            lv.flatten().skip(k)
        } else {
            Seq::<T>::empty()
        }),
    decreases k,
{
    let f = lv.flatten();
    if k == 0 {
        assert(f.skip(0) =~= f);
    } else {
        lemma_iter_walk_at(lv, its, rs, k - 1);
        assert(LayeredVecIter::step(its[k - 1], rs[k - 1], its[k]));
        if k <= f.len() {
            assert(f.skip(k - 1).drop_first() =~= f.skip(k));
        } else if k - 1 == f.len() {
            assert(its[k - 1].remaining().len() == 0);
        }
        assert(its[k].remaining() =~= (if k <= f.len() { f.skip(k) } else { Seq::<T>::empty() }));
    }
}

/// A walk over the paths of `lv`: starting from what `path_iter` gives,
/// one call of `next` after another gives the paths of the elements of
/// `lv` in depth-first order, and after the last, `None` at every call.
pub proof fn lemma_path_walk<'a, T>(lv: LayeredVec<T>, its: Seq<PathIter<'a, T>>, rs: Seq<Option<Vec<usize>>>)
    requires
        its.len() == rs.len() + 1,
        its[0].remaining() == lv.paths(),
        forall|k: int| 0 <= k < rs.len() ==> PathIter::step(its[k], #[trigger] rs[k], its[k + 1]),
    ensures
        forall|k: int|
            0 <= k < rs.len() && k < lv.paths().len() ==> (#[trigger] rs[k] matches Some(p) && p@
                == lv.paths()[k]),
        forall|k: int| 0 <= k < rs.len() && k >= lv.paths().len() ==> #[trigger] rs[k] is None,
{
    let f = lv.paths();
    assert forall|k: int| 0 <= k < its.len() implies #[trigger] its[k].remaining() == (if k <= f.len() {
        f.skip(k)
    } else {
        Seq::<Seq<usize>>::empty()
    }) by {
        lemma_path_walk_at(lv, its, rs, k);
    }
    assert forall|k: int| 0 <= k < rs.len() implies (k < f.len() ==> (#[trigger] rs[k] matches Some(p) && p@
        == f[k])) && (k >= f.len() ==> rs[k] is None) by {
        assert(PathIter::step(its[k], rs[k], its[k + 1]));
        assert(its[k].remaining() == (if k <= f.len() { f.skip(k) } else { Seq::<Seq<usize>>::empty() }));
    }
}

proof fn lemma_path_walk_at<'a, T>(
    lv: LayeredVec<T>,
    its: Seq<PathIter<'a, T>>,
    rs: Seq<Option<Vec<usize>>>,
    k: int,
)
    requires
        its.len() == rs.len() + 1,
        its[0].remaining() == lv.paths(),
        forall|k: int| 0 <= k < rs.len() ==> PathIter::step(its[k], #[trigger] rs[k], its[k + 1]),
        0 <= k < its.len(),
    ensures
        its[k].remaining() == (if k <= lv.paths().len() {
            lv.paths().skip(k)
        } else {
            Seq::<Seq<usize>>::empty()
        }),
    decreases k,
{
    let f = lv.paths();
    if k == 0 {
        assert(f.skip(0) =~= f);
    } else {
        lemma_path_walk_at(lv, its, rs, k - 1);
        assert(PathIter::step(its[k - 1], rs[k - 1], its[k]));
        if k <= f.len() {
            assert(f.skip(k - 1).drop_first() =~= f.skip(k));
        } else if k - 1 == f.len() {
            assert(its[k - 1].remaining().len() == 0);
        }
        assert(its[k].remaining() =~= (if k <= f.len() { f.skip(k) } else { Seq::<Seq<usize>>::empty() }));
    }
}

} // verus!
