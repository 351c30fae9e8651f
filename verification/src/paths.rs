//! Copies and prefixes of paths. A path is compared by what its components
//! hold, so every contract here speaks of the deep view.

use crate::entries::{Component, Path};
use vstd::prelude::*;

verus! {

/// Pushing onto a list pushes onto what the list holds.
pub proof fn lemma_push_deep_view<T: DeepView>(before: Vec<T>, after: Vec<T>, item: T)
    requires
        after@ == before@.push(item),
    ensures
        after.deep_view() == before.deep_view().push(item.deep_view()),
        after.deep_view().len() == before.deep_view().len() + 1,
{
    let want = before.deep_view().push(item.deep_view());
    assert forall|k: int| 0 <= k < want.len() implies after.deep_view()[k] == want[k] by {
        if k < before@.len() {
            assert(after@[k] == before@[k]);
        }
    }
    assert(after.deep_view() =~= want);
}

pub fn clone_component(c: &Component) -> (r: Component)
    ensures
        r@ == c@,
{
    let mut r: Vec<u8> = Vec::new();
    let mut i: usize = 0;
    while i < c.len()
        invariant
            i <= c.len(),
            r@ == c@.subrange(0, i as int),
        decreases c.len() - i,
    {
        r.push(c[i]);
        i = i + 1;
        assert(r@ =~= c@.subrange(0, i as int));
    }
    assert(c@.subrange(0, c@.len() as int) =~= c@);
    r
}

/// The first `n` components of `p`.
pub fn path_prefix(p: &Path, n: usize) -> (r: Path)
    requires
        n <= p.len(),
    ensures
        r.deep_view() == p.deep_view().subrange(0, n as int),
{
    let mut r: Vec<Vec<u8>> = Vec::new();
    let mut i: usize = 0;
    while i < n
        invariant
            i <= n <= p.len(),
            r@.len() == i,
            r.deep_view() == p.deep_view().subrange(0, i as int),
        decreases n - i,
    {
        let c = clone_component(&p[i]);
        let ghost before = r;
        r.push(c);
        i = i + 1;
        assert forall|k: int| 0 <= k < i implies r.deep_view()[k] == p.deep_view()[k] by {
            if k < i - 1 {
                assert(r@[k] == before@[k]);
                assert(before.deep_view()[k] == p.deep_view().subrange(0, i - 1)[k]);
            }
        }
        assert(r.deep_view() =~= p.deep_view().subrange(0, i as int));
    }
    r
}

pub fn clone_path(p: &Path) -> (r: Path)
    ensures
        r.deep_view() == p.deep_view(),
{
    let r = path_prefix(p, p.len());
    assert(p.deep_view().subrange(0, p@.len() as int) =~= p.deep_view());
    r
}

pub fn clone_paths(ps: &Vec<Path>) -> (r: Vec<Path>)
    ensures
        r.deep_view() == ps.deep_view(),
{
    let mut r: Vec<Path> = Vec::new();
    let mut i: usize = 0;
    while i < ps.len()
        invariant
            i <= ps.len(),
            r@.len() == i,
            r.deep_view() == ps.deep_view().subrange(0, i as int),
        decreases ps.len() - i,
    {
        let c = clone_path(&ps[i]);
        let ghost before = r;
        r.push(c);
        i = i + 1;
        assert forall|k: int| 0 <= k < i implies r.deep_view()[k] == ps.deep_view()[k] by {
            if k < i - 1 {
                assert(r@[k] == before@[k]);
                assert(before.deep_view()[k] == ps.deep_view().subrange(0, i - 1)[k]);
            }
        }
        assert(r.deep_view() =~= ps.deep_view().subrange(0, i as int));
    }
    assert(ps.deep_view().subrange(0, ps@.len() as int) =~= ps.deep_view());
    r
}

/// Whether two components hold the same bytes.
pub fn component_eq(a: &Component, b: &Component) -> (r: bool)
    ensures
        r == (a@ == b@),
{
    if a.len() != b.len() {
        return false;
    }
    let mut i: usize = 0;
    while i < a.len()
        invariant
            i <= a.len(),
            a.len() == b.len(),
            forall|k: int| 0 <= k < i ==> a@[k] == b@[k],
        decreases a.len() - i,
    {
        if a[i] != b[i] {
            return false;
        }
        i = i + 1;
    }
    assert(a@ =~= b@);
    true
}

} // verus!
