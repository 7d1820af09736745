//! The server list container: a read-only, reference-counted handle over an
//! ordered sequence of server records, and index-based views that present
//! filtered or sorted subsequences without ever copying a record.

use std::sync::Arc;

use vstd::prelude::*;
use vstd::relations::{sorted_by, strongly_connected, total_ordering, transitive};
use vstd::seq_lib::lemma_sorted_unique;

use crate::model::Server;
use crate::ops::{
    identity_positions, lemma_perm_of_ensures, lemma_pos_order_total, lemma_view_of_identity,
    perm_of, pos_le, pos_order, sorted_records, spec_matches, view_of, Filter, SortCriteria,
};

verus! {

broadcast use vstd::seq_lib::group_to_multiset_ensures;

/// Relies on `Arc`'s `Deref` impl: a shared handle dereferences to the value
/// it was created from.
#[verifier::external_body]
fn arc_vec<'a>(a: &'a Arc<Vec<Server>>) -> (r: &'a Vec<Server>)
    ensures
        r@ == a@,
{
    &**a
}

/// Relies on `Arc::clone`: cloning a shared handle yields a handle to the
/// same value, without copying it.
#[verifier::external_body]
fn share_servers(a: &Arc<Vec<Server>>) -> (r: Arc<Vec<Server>>)
    ensures
        r@ == a@,
{
    Arc::clone(a)
}

/// An ordered, indexable collection of server records. Implemented by the
/// owning list and by every derived view, so that filtering and sorting
/// compose uniformly.
pub trait Servers {
    /// The record sequence this collection presents.
    spec fn records(&self) -> Seq<Server>;

    fn len(&self) -> (n: usize)
        ensures
            n == self.records().len(),
    ;

    fn at(&self, i: usize) -> (r: &Server)
        requires
            i < self.records().len(),
        ensures
            *r == self.records()[i as int],
    ;
}

/// A read-only, shareable handle over an ordered sequence of server records.
pub struct ServerList {
    servers: Arc<Vec<Server>>,
}

/// A view: a subsequence/permutation of indices into a shared backing list.
/// Deriving a view never copies a record, and views can be filtered and
/// sorted again, always resolving through to the same backing records.
pub struct ServerListView {
    source: Arc<Vec<Server>>,
    indices: Vec<usize>,
}

impl ServerList {
    /// The backing record sequence.
    pub closed spec fn spec_records(&self) -> Seq<Server> {
        self.servers@
    }

    pub fn empty() -> (r: Self)
        ensures
            r.spec_records() == Seq::<Server>::empty(),
    {
        ServerList { servers: Arc::new(Vec::new()) }
    }

    pub fn from_records(records: Vec<Server>) -> (r: Self)
        ensures
            r.spec_records() == records@,
    {
        ServerList { servers: Arc::new(records) }
    }

    /// A view of the whole list in its original order.
    pub fn full_view(&self) -> (v: ServerListView)
        ensures
            v.records() == self.spec_records(),
    {
        let src = arc_vec(&self.servers);
        let n = src.len();
        let mut indices: Vec<usize> = Vec::new();
        let mut i: usize = 0;
        while i < n
            invariant
                i <= n,
                n == self.servers@.len(),
                indices@ == identity_positions(i as nat),
            decreases n - i,
        {
            indices.push(i);
            proof {
                assert(indices@ =~= identity_positions((i + 1) as nat));
            }
            i += 1;
        }
        proof {
            lemma_view_of_identity(self.servers@);
        }
        ServerListView { source: share_servers(&self.servers), indices }
    }

    /// A view of the records admitted by `filter`, in source order.
    pub fn filtered(&self, filter: &Filter) -> (v: ServerListView)
        ensures
            v.records() == self.spec_records().filter(|r: Server| spec_matches(*filter, r)),
    {
        self.full_view().filtered(filter)
    }

    /// A view of all records, ordered by `criteria`.
    pub fn sorted(&self, criteria: SortCriteria) -> (v: ServerListView)
        ensures
            v.records() == sorted_records(criteria, self.spec_records()),
    {
        self.full_view().sorted(criteria)
    }
}

impl Clone for ServerList {
    /// Cloning shares the backing records; it does not copy them.
    fn clone(&self) -> (r: Self)
        ensures
            r.spec_records() == self.spec_records(),
    {
        ServerList { servers: share_servers(&self.servers) }
    }
}

impl Servers for ServerList {
    closed spec fn records(&self) -> Seq<Server> {
        self.servers@
    }

    fn len(&self) -> (n: usize) {
        let src = arc_vec(&self.servers);
        src.len()
    }

    fn at(&self, i: usize) -> (r: &Server) {
        let src = arc_vec(&self.servers);
        &src[i]
    }
}

impl ServerListView {
    /// Every index points into the backing sequence.
    #[verifier::type_invariant]
    pub closed spec fn wf(self) -> bool {
        forall|k: int| 0 <= k < self.indices@.len() ==> (self.indices@[k] as int) < self.source@.len()
    }

    /// A view of this view's records admitted by `filter`, in this view's
    /// order, resolving through to the same backing records.
    pub fn filtered(&self, filter: &Filter) -> (v: ServerListView)
        ensures
            v.records() == self.records().filter(|r: Server| spec_matches(*filter, r)),
    {
        proof {
            use_type_invariant(self);
        }
        let src = arc_vec(&self.source);
        let n = self.indices.len();
        let ghost pred = |r: Server| spec_matches(*filter, r);
        let mut kept: Vec<usize> = Vec::new();
        let mut t: usize = 0;
        proof {
            assert(self.indices@.subrange(0, 0) =~= Seq::<usize>::empty());
            assert(view_of(self.source@, Seq::<usize>::empty()) =~= Seq::<Server>::empty());
            assert(Seq::<Server>::empty().filter(pred) =~= Seq::<Server>::empty());
            assert(view_of(self.source@, kept@) =~= Seq::<Server>::empty());
        }
        while t < n
            invariant
                t <= n,
                n == self.indices@.len(),
                src@ == self.source@,
                self.wf(),
                forall|k: int| 0 <= k < kept@.len() ==> (kept@[k] as int) < self.source@.len(),
                pred == (|r: Server| spec_matches(*filter, r)),
                view_of(self.source@, kept@) == view_of(
                    self.source@,
                    self.indices@.subrange(0, t as int),
                ).filter(pred),
            decreases n - t,
        {
            let ghost prefix = view_of(self.source@, self.indices@.subrange(0, t as int));
            let idx_t = self.indices[t];
            proof {
                assert(self.indices@[t as int] == idx_t);
                assert((idx_t as int) < self.source@.len());
            }
            let keep = filter.matches(&src[idx_t]);
            let ghost x = self.source@[idx_t as int];
            let ghost old_kept = kept@;
            if keep {
                kept.push(idx_t);
            }
            proof {
                let pre1 = self.indices@.subrange(0, (t + 1) as int);
                assert(pre1 =~= self.indices@.subrange(0, t as int).push(idx_t));
                assert(view_of(self.source@, pre1) =~= prefix.push(x));
                prefix.lemma_filter_push(x, pred);
                if keep {
                    assert(view_of(self.source@, kept@) =~= view_of(
                        self.source@,
                        old_kept,
                    ).push(x));
                }
                assert(view_of(self.source@, kept@) == view_of(self.source@, pre1).filter(pred));
            }
            t += 1;
        }
        proof {
            assert(self.indices@.subrange(0, n as int) =~= self.indices@);
        }
        ServerListView { source: share_servers(&self.source), indices: kept }
    }

    /// A view of this view's records ordered by `criteria`, resolving through
    /// to the same backing records.
    pub fn sorted(&self, criteria: SortCriteria) -> (v: ServerListView)
        ensures
            v.records() == sorted_records(criteria, self.records()),
    {
        proof {
            use_type_invariant(self);
        }
        let perm = sort_positions(&criteria, arc_vec(&self.source), &self.indices);
        let out = compose_indices(&self.indices, &perm);
        proof {
            lemma_view_of_gather(self.source@, self.indices@, perm@);
        }
        ServerListView { source: share_servers(&self.source), indices: out }
    }
}

impl Servers for ServerListView {
    closed spec fn records(&self) -> Seq<Server> {
        view_of(self.source@, self.indices@)
    }

    fn len(&self) -> (n: usize) {
        self.indices.len()
    }

    fn at(&self, i: usize) -> (r: &Server) {
        proof {
            use_type_invariant(self);
        }
        let src = arc_vec(&self.source);
        let idx = self.indices[i];
        &src[idx]
    }
}

/// Picking records out of `s` first by `idx`, then permuting by `perm`, is
/// the same as picking by the composed index sequence.
pub open spec fn gather(idx: Seq<usize>, perm: Seq<usize>) -> Seq<usize> {
    perm.map(|_i: int, p: usize| idx[p as int])
}

proof fn lemma_view_of_gather(s: Seq<Server>, idx: Seq<usize>, perm: Seq<usize>)
    requires
        forall|t: int| 0 <= t < perm.len() ==> (perm[t] as int) < idx.len(),
    ensures
        view_of(s, gather(idx, perm)) =~= view_of(view_of(s, idx), perm),
{
    assert forall|t: int| 0 <= t < perm.len() implies view_of(s, gather(idx, perm))[t] == view_of(
        view_of(s, idx),
        perm,
    )[t] by {
        assert(gather(idx, perm)[t] == idx[perm[t] as int]);
    }
}

/// Positions ordered by the records they denote: the executable form of
/// `pos_le` over the view `view_of(src, idx)`.
fn pos_le_exec(
    c: &SortCriteria,
    src: &Vec<Server>,
    idx: &Vec<usize>,
    p: usize,
    q: usize,
) -> (r: bool)
    requires
        (p as int) < idx@.len(),
        (q as int) < idx@.len(),
        forall|k: int| 0 <= k < idx@.len() ==> (idx@[k] as int) < src@.len(),
    ensures
        r == pos_le(*c, view_of(src@, idx@), p, q),
{
    let rp = idx[p];
    let rq = idx[q];
    let cmp = c.compare(&src[rp], &src[rq]);
    proof {
        assert(view_of(src@, idx@)[p as int] == src@[idx@[p as int] as int]);
        assert(view_of(src@, idx@)[q as int] == src@[idx@[q as int] as int]);
    }
    cmp < 0 || (cmp == 0 && p <= q)
}

/// Stable sort of the positions of the view `view_of(src, idx)` by the given
/// criteria: returns exactly the unique sorted permutation `perm_of`.
fn sort_positions(c: &SortCriteria, src: &Vec<Server>, idx: &Vec<usize>) -> (perm: Vec<usize>)
    requires
        forall|k: int| 0 <= k < idx@.len() ==> (idx@[k] as int) < src@.len(),
    ensures
        perm@ == perm_of(*c, view_of(src@, idx@)),
        forall|t: int| 0 <= t < perm@.len() ==> (perm@[t] as int) < idx@.len(),
{
    let ghost v = view_of(src@, idx@);
    let ghost ord = pos_order(*c, v);
    proof {
        lemma_pos_order_total(*c, v);
    }
    let n = idx.len();
    let mut perm: Vec<usize> = Vec::new();
    let mut k: usize = 0;
    while k < n
        invariant
            k <= n,
            n == idx@.len(),
            v == view_of(src@, idx@),
            ord == pos_order(*c, v),
            total_ordering(ord),
            forall|t: int| 0 <= t < idx@.len() ==> (idx@[t] as int) < src@.len(),
            perm@.len() == k,
            forall|t: int| 0 <= t < perm@.len() ==> (perm@[t] as int) < k,
            sorted_by(perm@, ord),
            perm@.to_multiset() == identity_positions(k as nat).to_multiset(),
        decreases n - k,
    {
        let mut j: usize = 0;
        while j < perm.len() && pos_le_exec(c, src, idx, perm[j], k)
            invariant
                j <= perm@.len(),
                k < n,
                n == idx@.len(),
                v == view_of(src@, idx@),
                perm@.len() == k,
                forall|t: int| 0 <= t < perm@.len() ==> (perm@[t] as int) < k,
                forall|t: int| 0 <= t < idx@.len() ==> (idx@[t] as int) < src@.len(),
                forall|t: int| 0 <= t < j ==> pos_le(*c, v, perm@[t], k as usize),
            decreases perm@.len() - j,
        {
            j += 1;
        }
        let ghost old_perm = perm@;
        proof {
            assert forall|t: int| j <= t < old_perm.len() implies pos_le(
                *c,
                v,
                k as usize,
                old_perm[t],
            ) by {
                let pj = old_perm[j as int];
                assert(!pos_le(*c, v, pj, k as usize));
                crate::ops::lemma_cmp_antisym(*c, v[pj as int], v[k as int]);
                assert(pos_le(*c, v, k as usize, pj));
                if t > j {
                    assert(sorted_by(old_perm, ord));
                    assert(ord(pj, old_perm[t]));
                    assert(pos_le(*c, v, pj, old_perm[t]));
                    crate::ops::lemma_cmp_trans(
                        *c,
                        v[k as int],
                        v[pj as int],
                        v[old_perm[t] as int],
                    );
                }
            }
        }
        perm.insert(j, k);
        proof {
            broadcast use vstd::seq_lib::to_multiset_insert;

            let pnew = old_perm.insert(j as int, k as usize);
            assert(perm@ == pnew);
            assert forall|x: int, y: int| 0 <= x < y < pnew.len() implies ord(pnew[x], pnew[y]) by {
                old_perm.insert_ensures(j as int, k as usize);
                if y < j {
                    assert(ord(old_perm[x], old_perm[y]));
                } else if x > j {
                    assert(ord(old_perm[x - 1], old_perm[y - 1]));
                } else if x < j && y == j {
                    assert(pos_le(*c, v, old_perm[x], k as usize));
                } else if x == j {
                    assert(pos_le(*c, v, k as usize, old_perm[y - 1]));
                } else if x < j && y > j {
                    assert(ord(old_perm[x], old_perm[y - 1]));
                }
            }
            assert(identity_positions((k + 1) as nat) =~= identity_positions(k as nat).push(
                k as usize,
            ));
            assert(perm@.to_multiset() == identity_positions((k + 1) as nat).to_multiset());
        }
        k += 1;
    }
    proof {
        lemma_perm_of_ensures(*c, v);
        assert(v.len() == n);
        lemma_sorted_unique(perm@, perm_of(*c, v), ord);
        assert forall|t: int| 0 <= t < perm@.len() implies (perm@[t] as int) < idx@.len() by {}
    }
    perm
}

/// Resolve view positions back to backing indices.
fn compose_indices(idx: &Vec<usize>, perm: &Vec<usize>) -> (out: Vec<usize>)
    requires
        forall|t: int| 0 <= t < perm@.len() ==> (perm@[t] as int) < idx@.len(),
    ensures
        out@ == gather(idx@, perm@),
{
    let n = perm.len();
    let mut out: Vec<usize> = Vec::new();
    let mut t: usize = 0;
    while t < n
        invariant
            t <= n,
            n == perm@.len(),
            forall|u: int| 0 <= u < perm@.len() ==> (perm@[u] as int) < idx@.len(),
            out@ == gather(idx@, perm@.subrange(0, t as int)),
        decreases n - t,
    {
        let p = perm[t];
        out.push(idx[p]);
        proof {
            assert(perm@.subrange(0, (t + 1) as int) =~= perm@.subrange(0, t as int).push(p));
            assert(out@ =~= gather(idx@, perm@.subrange(0, (t + 1) as int)));
        }
        t += 1;
    }
    proof {
        assert(perm@.subrange(0, n as int) =~= perm@);
    }
    out
}

/// An iterator over any server collection, front to back.
pub struct ServerIter<'l, S: Servers> {
    list: &'l S,
    idx: usize,
}

impl<'l, S: Servers> ServerIter<'l, S> {
    pub closed spec fn spec_list(&self) -> &'l S {
        self.list
    }

    pub closed spec fn spec_pos(&self) -> int {
        self.idx as int
    }

    pub fn new(list: &'l S) -> (it: Self)
        ensures
            it.spec_list() == list,
            it.spec_pos() == 0,
    {
        ServerIter { list, idx: 0 }
    }

    /// The next record of the underlying collection, in order; `None` once
    /// the collection is exhausted.
    pub fn next(&mut self) -> (r: Option<&'l Server>)
        ensures
            final(self).spec_list() == old(self).spec_list(),
            old(self).spec_pos() < old(self).spec_list().records().len() ==> (r matches Some(s)
                && *s == old(self).spec_list().records()[old(self).spec_pos()]
                && final(self).spec_pos() == old(self).spec_pos() + 1),
            old(self).spec_pos() >= old(self).spec_list().records().len() ==> (r is None
                && final(self).spec_pos() == old(self).spec_pos()),
    {
        if self.idx >= self.list.len() {
            return None;
        }
        let result = self.list.at(self.idx);
        self.idx = self.idx + 1;
        Some(result)
    }
}

} // verus!
