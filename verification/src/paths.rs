use vstd::prelude::*;

verus! {

// A filesystem path is modelled as its sequence of components, each
// component being the bytes of one path segment. Matching a path against
// an ignored path is a prefix match on whole components, never a substring
// match on the textual form.

/// True when `pre` is a component-wise prefix of `p`.
pub open spec fn is_path_prefix(pre: Seq<Seq<u8>>, p: Seq<Seq<u8>>) -> bool {
    pre.len() <= p.len() && (forall|i: int| 0 <= i < pre.len() ==> p[i] == pre[i])
}

/// True when `pre` is a prefix of `p` and shorter than `p`.
pub open spec fn is_strict_path_prefix(pre: Seq<Seq<u8>>, p: Seq<Seq<u8>>) -> bool {
    is_path_prefix(pre, p) && pre.len() < p.len()
}

/// True when `p` equals some ignored path or lies beneath one.
pub open spec fn under_any_ignored(ignored: Seq<Seq<Seq<u8>>>, p: Seq<Seq<u8>>) -> bool {
    exists|k: int| 0 <= k < ignored.len() && is_path_prefix(ignored[k], p)
}

/// True when `p` is one of the paths in `list`, component for component.
pub open spec fn in_path_list(list: Seq<Seq<Seq<u8>>>, p: Seq<Seq<u8>>) -> bool {
    exists|k: int| 0 <= k < list.len() && list[k] == p
}

/// The deep view of a component path indexes to the views of its
/// component byte vectors.
pub proof fn lemma_path_deep_view(p: Vec<Vec<u8>>)
    ensures
        p.deep_view().len() == p@.len(),
        forall|i: int| 0 <= i < p@.len() ==> p.deep_view()[i] == p@[i]@,
{
    assert forall|i: int| 0 <= i < p@.len() implies p.deep_view()[i] == p@[i]@ by {
        assert(p@[i].deep_view() =~= p@[i]@);
    }
}

/// The deep view of a list of component paths indexes to the deep views
/// of its elements.
pub proof fn lemma_path_list_deep_view(v: Vec<Vec<Vec<u8>>>)
    ensures
        v.deep_view().len() == v@.len(),
        forall|k: int| 0 <= k < v@.len() ==> v.deep_view()[k] == v@[k].deep_view(),
{
    assert forall|k: int| 0 <= k < v@.len() implies v.deep_view()[k] == v@[k].deep_view() by {
    }
}

/// Byte-vector equality, decided element by element.
pub fn bytes_eq(a: &Vec<u8>, b: &Vec<u8>) -> (r: bool)
    ensures
        r == (a@ == b@),
{
    if a.len() != b.len() {
        return false;
    }
    let n = a.len();
    for i in 0..n
        invariant
            n == a.len() == b.len(),
            forall|j: int| 0 <= j < i ==> a@[j] == b@[j],
    {
        if a[i] != b[i] {
            return false;
        }
    }
    proof {
        assert(a@ =~= b@);
    }
    true
}

/// An exact copy of a byte vector.
pub fn clone_bytes(b: &Vec<u8>) -> (r: Vec<u8>)
    ensures
        r@ == b@,
{
    let mut r: Vec<u8> = Vec::new();
    let n = b.len();
    for i in 0..n
        invariant
            n == b.len(),
            r@ == b@.take(i as int),
    {
        r.push(b[i]);
        proof {
            assert(b@.take(i + 1) =~= b@.take(i as int).push(b@[i as int]));
        }
    }
    proof {
        assert(b@.take(n as int) =~= b@);
    }
    r
}

/// An exact copy of a component path.
pub fn clone_path(p: &Vec<Vec<u8>>) -> (r: Vec<Vec<u8>>)
    ensures
        r.deep_view() == p.deep_view(),
        r@.len() == p@.len(),
{
    let mut r: Vec<Vec<u8>> = Vec::new();
    let n = p.len();
    for i in 0..n
        invariant
            n == p.len(),
            r@.len() == i,
            forall|j: int| 0 <= j < i ==> r@[j]@ == p@[j]@,
    {
        r.push(clone_bytes(&p[i]));
    }
    proof {
        lemma_path_deep_view(r);
        lemma_path_deep_view(*p);
        assert(r.deep_view() =~= p.deep_view());
    }
    r
}

/// Component-wise prefix test: does `p` start with `pre`?
pub fn path_starts_with(p: &Vec<Vec<u8>>, pre: &Vec<Vec<u8>>) -> (r: bool)
    ensures
        r == is_path_prefix(pre.deep_view(), p.deep_view()),
{
    proof {
        lemma_path_deep_view(*p);
        lemma_path_deep_view(*pre);
    }
    if pre.len() > p.len() {
        return false;
    }
    let n = pre.len();
    for i in 0..n
        invariant
            n == pre.len() <= p.len(),
            forall|j: int| 0 <= j < i ==> p@[j]@ == pre@[j]@,
    {
        if !bytes_eq(&p[i], &pre[i]) {
            proof {
                lemma_path_deep_view(*p);
                lemma_path_deep_view(*pre);
                assert(p.deep_view()[i as int] != pre.deep_view()[i as int]);
            }
            return false;
        }
    }
    proof {
        lemma_path_deep_view(*p);
        lemma_path_deep_view(*pre);
    }
    true
}

/// Component-wise path equality.
pub fn path_eq(a: &Vec<Vec<u8>>, b: &Vec<Vec<u8>>) -> (r: bool)
    ensures
        r == (a.deep_view() == b.deep_view()),
{
    proof {
        lemma_path_deep_view(*a);
        lemma_path_deep_view(*b);
    }
    if a.len() != b.len() {
        return false;
    }
    let n = a.len();
    for i in 0..n
        invariant
            n == a@.len() == b@.len(),
            forall|j: int| 0 <= j < i ==> a@[j]@ == b@[j]@,
    {
        if !bytes_eq(&a[i], &b[i]) {
            proof {
                lemma_path_deep_view(*a);
                lemma_path_deep_view(*b);
                assert(a.deep_view()[i as int] != b.deep_view()[i as int]);
            }
            return false;
        }
    }
    proof {
        lemma_path_deep_view(*a);
        lemma_path_deep_view(*b);
        assert(a.deep_view() =~= b.deep_view());
    }
    true
}

/// Is `p` one of the paths in `list`?
pub fn is_in_path_list(list: &Vec<Vec<Vec<u8>>>, p: &Vec<Vec<u8>>) -> (r: bool)
    ensures
        r == in_path_list(list.deep_view(), p.deep_view()),
{
    let n = list.len();
    for k in 0..n
        invariant
            n == list@.len(),
            forall|j: int| 0 <= j < k ==> list.deep_view()[j] != p.deep_view(),
    {
        proof {
            lemma_path_list_deep_view(*list);
        }
        if path_eq(&list[k], p) {
            proof {
                assert(list.deep_view()[k as int] == p.deep_view());
            }
            return true;
        }
    }
    proof {
        lemma_path_list_deep_view(*list);
    }
    false
}

/// Is `p` equal to or nested under any of the ignored paths?
pub fn is_under_any_ignored(ignored: &Vec<Vec<Vec<u8>>>, p: &Vec<Vec<u8>>) -> (r: bool)
    ensures
        r == under_any_ignored(ignored.deep_view(), p.deep_view()),
{
    let n = ignored.len();
    for k in 0..n
        invariant
            n == ignored.len(),
            forall|j: int| 0 <= j < k ==> !is_path_prefix(ignored.deep_view()[j], p.deep_view()),
    {
        proof {
            lemma_path_list_deep_view(*ignored);
        }
        if path_starts_with(p, &ignored[k]) {
            proof {
                assert(is_path_prefix(ignored.deep_view()[k as int], p.deep_view()));
            }
            return true;
        }
    }
    false
}

} // verus!
