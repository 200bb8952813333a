use crate::payment::Invoice;
use crate::ID;
use vstd::prelude::*;

verus! {

/// The outstanding invoices of one receiving node.
#[derive(Debug, Clone)]
pub struct NodeInvoices {
    pub node: ID,
    pub invoices: Vec<Invoice>,
}

/// `s` lists the invoices of `m` exactly once each, `m` being keyed by invoice id.
pub open spec fn lists_exactly(s: Seq<Invoice>, m: Map<usize, Invoice>) -> bool {
    &&& forall|a: int, c: int| 0 <= a < c < s.len() ==> (#[trigger] s[a]).id != (#[trigger] s[c]).id
    &&& forall|id: usize|
        #![trigger m.contains_key(id)]
        m.contains_key(id) <==> exists|a: int| 0 <= a < s.len() && (#[trigger] s[a]).id == id
    &&& forall|a: int| 0 <= a < s.len() ==> m[(#[trigger] s[a]).id] == s[a]
}

/// `m` holds `id` and nothing else.
pub open spec fn holds_only(m: Map<usize, Invoice>, id: usize) -> bool {
    forall|k: usize| #[trigger] m.contains_key(k) ==> k == id
}

/// The registry `m` after filing `inv` under its destination.
pub open spec fn added(
    m: Map<Seq<char>, Map<usize, Invoice>>,
    inv: Invoice,
) -> Map<Seq<char>, Map<usize, Invoice>> {
    m.insert(
        inv.destination@,
        (if m.contains_key(inv.destination@) {
            m[inv.destination@]
        } else {
            Map::empty()
        }).insert(inv.id, inv),
    )
}

/// The registry `m` after taking back the invoice with `inv`'s id from
/// `inv`'s destination; a destination left without invoices goes too.
pub open spec fn removed(
    m: Map<Seq<char>, Map<usize, Invoice>>,
    inv: Invoice,
) -> Map<Seq<char>, Map<usize, Invoice>> {
    let d = inv.destination@;
    if !m.contains_key(d) {
        m
    } else if holds_only(m[d], inv.id) {
        m.remove(d)
    } else {
        m.insert(d, m[d].remove(inv.id))
    }
}

/// `m` holds no invoice `id` under `dest`.
pub open spec fn invoice_gone(m: Map<Seq<char>, Map<usize, Invoice>>, id: usize, dest: Seq<char>) -> bool {
    !(m.contains_key(dest) && m[dest].contains_key(id))
}

/// Taking an invoice back leaves it gone, and brings back none that was gone.
pub proof fn lemma_removed_gone(
    m: Map<Seq<char>, Map<usize, Invoice>>,
    inv: Invoice,
    id: usize,
    dest: Seq<char>,
)
    ensures
        invoice_gone(removed(m, inv), inv.id, inv.destination@),
        invoice_gone(m, id, dest) ==> invoice_gone(removed(m, inv), id, dest),
{
}

spec fn registry_wf(b: Seq<NodeInvoices>, m: Map<Seq<char>, Map<usize, Invoice>>) -> bool {
    &&& forall|i: int, j: int|
        0 <= i < j < b.len() ==> (#[trigger] b[i]).node@ != (#[trigger] b[j]).node@
    &&& forall|k: Seq<char>|
        #![trigger m.contains_key(k)]
        m.contains_key(k) <==> exists|i: int| 0 <= i < b.len() && (#[trigger] b[i]).node@ == k
    &&& forall|i: int|
        0 <= i < b.len() ==> lists_exactly((#[trigger] b[i]).invoices@, m[b[i].node@])
            && b[i].invoices@.len() > 0
}

proof fn lemma_list_push(s: Seq<Invoice>, m: Map<usize, Invoice>, inv: Invoice)
    requires
        lists_exactly(s, m),
        !m.contains_key(inv.id),
    ensures
        lists_exactly(s.push(inv), m.insert(inv.id, inv)),
{
    let t = s.push(inv);
    let mm = m.insert(inv.id, inv);
    assert forall|id: usize| mm.contains_key(id) implies exists|a: int|
        0 <= a < t.len() && (#[trigger] t[a]).id == id by {
        if id == inv.id {
            assert(t[s.len() as int].id == id);
        } else {
            let a = choose|a: int| 0 <= a < s.len() && (#[trigger] s[a]).id == id;
            assert(t[a].id == id);
        }
    }
    assert forall|id: usize| (exists|a: int| 0 <= a < t.len() && (#[trigger] t[a]).id == id)
        implies #[trigger] mm.contains_key(id) by {
        let a = choose|a: int| 0 <= a < t.len() && (#[trigger] t[a]).id == id;
        if a < s.len() {
            assert(s[a].id == id);
        }
    }
    assert forall|a: int, c: int| 0 <= a < c < t.len() implies (#[trigger] t[a]).id != (
    #[trigger] t[c]).id by {
        if c == s.len() {
            assert(s[a].id == t[a].id);
        } else {
            assert(s[a] == t[a] && s[c] == t[c]);
        }
    }
    assert forall|a: int| 0 <= a < t.len() implies mm[(#[trigger] t[a]).id] == t[a] by {
        if a < s.len() {
            assert(s[a] == t[a]);
        }
    }
}

proof fn lemma_list_remove(s: Seq<Invoice>, m: Map<usize, Invoice>, a: int)
    requires
        lists_exactly(s, m),
        0 <= a < s.len(),
    ensures
        lists_exactly(s.remove(a), m.remove(s[a].id)),
{
    let t = s.remove(a);
    let mm = m.remove(s[a].id);
    assert forall|id: usize| mm.contains_key(id) implies exists|c: int|
        0 <= c < t.len() && (#[trigger] t[c]).id == id by {
        let c = choose|c: int| 0 <= c < s.len() && (#[trigger] s[c]).id == id;
        if c < a {
            assert(t[c].id == id);
        } else {
            assert(t[c - 1].id == id);
        }
    }
    assert forall|id: usize| (exists|c: int| 0 <= c < t.len() && (#[trigger] t[c]).id == id)
        implies #[trigger] mm.contains_key(id) by {
        let c = choose|c: int| 0 <= c < t.len() && (#[trigger] t[c]).id == id;
        if c < a {
            assert(s[c].id == id);
        } else {
            assert(s[c + 1].id == id);
        }
    }
    assert forall|x: int, y: int| 0 <= x < y < t.len() implies (#[trigger] t[x]).id != (
    #[trigger] t[y]).id by {
        let sx = if x < a { x } else { x + 1 };
        let sy = if y < a { y } else { y + 1 };
        assert(t[x] == s[sx] && t[y] == s[sy]);
    }
    assert forall|x: int| 0 <= x < t.len() implies mm[(#[trigger] t[x]).id] == t[x] by {
        let sx = if x < a { x } else { x + 1 };
        assert(t[x] == s[sx]);
        assert(s[sx].id != s[a].id);
    }
}

proof fn lemma_update_bucket(
    b: Seq<NodeInvoices>,
    m: Map<Seq<char>, Map<usize, Invoice>>,
    i: int,
    nb: NodeInvoices,
    inner: Map<usize, Invoice>,
)
    requires
        registry_wf(b, m),
        0 <= i < b.len(),
        nb.node@ == b[i].node@,
        lists_exactly(nb.invoices@, inner),
        nb.invoices@.len() > 0,
    ensures
        registry_wf(b.update(i, nb), m.insert(b[i].node@, inner)),
{
    let t = b.update(i, nb);
    let d = b[i].node@;
    let nm = m.insert(d, inner);
    assert forall|k: Seq<char>| nm.contains_key(k) implies exists|j: int|
        0 <= j < t.len() && (#[trigger] t[j]).node@ == k by {
        if k != d {
            let j = choose|j: int| 0 <= j < b.len() && (#[trigger] b[j]).node@ == k;
            assert(t[j].node@ == k);
        } else {
            assert(t[i].node@ == k);
        }
    }
    assert forall|k: Seq<char>| (exists|j: int| 0 <= j < t.len() && (#[trigger] t[j]).node@ == k)
        implies #[trigger] nm.contains_key(k) by {
        let j = choose|j: int| 0 <= j < t.len() && (#[trigger] t[j]).node@ == k;
        assert(b[j].node@ == k);
    }
    assert forall|j: int, l: int| 0 <= j < l < t.len() implies (#[trigger] t[j]).node@ != (
    #[trigger] t[l]).node@ by {
        assert(b[j].node@ != b[l].node@);
    }
    assert forall|j: int| 0 <= j < t.len() implies lists_exactly(
        (#[trigger] t[j]).invoices@,
        nm[t[j].node@],
    ) && t[j].invoices@.len() > 0 by {
        if j != i {
            assert(b[j].node@ != b[i].node@);
            assert(t[j] == b[j]);
        }
    }
}

proof fn lemma_remove_bucket(b: Seq<NodeInvoices>, m: Map<Seq<char>, Map<usize, Invoice>>, i: int)
    requires
        registry_wf(b, m),
        0 <= i < b.len(),
    ensures
        registry_wf(b.remove(i), m.remove(b[i].node@)),
{
    let t = b.remove(i);
    let d = b[i].node@;
    let nm = m.remove(d);
    assert forall|k: Seq<char>| nm.contains_key(k) implies exists|j: int|
        0 <= j < t.len() && (#[trigger] t[j]).node@ == k by {
        let j = choose|j: int| 0 <= j < b.len() && (#[trigger] b[j]).node@ == k;
        if j < i {
            assert(t[j].node@ == k);
        } else {
            assert(t[j - 1].node@ == k);
        }
    }
    assert forall|k: Seq<char>| (exists|j: int| 0 <= j < t.len() && (#[trigger] t[j]).node@ == k)
        implies #[trigger] nm.contains_key(k) by {
        let j = choose|j: int| 0 <= j < t.len() && (#[trigger] t[j]).node@ == k;
        if j < i {
            assert(b[j].node@ == k);
            assert(b[j].node@ != b[i].node@);
        } else {
            assert(b[j + 1].node@ == k);
            assert(b[i].node@ != b[j + 1].node@);
        }
    }
    assert forall|x: int, y: int| 0 <= x < y < t.len() implies (#[trigger] t[x]).node@ != (
    #[trigger] t[y]).node@ by {
        let bx = if x < i { x } else { x + 1 };
        let by_ = if y < i { y } else { y + 1 };
        assert(t[x] == b[bx] && t[y] == b[by_]);
        assert(b[bx].node@ != b[by_].node@);
    }
    assert forall|x: int| 0 <= x < t.len() implies lists_exactly(
        (#[trigger] t[x]).invoices@,
        nm[t[x].node@],
    ) && t[x].invoices@.len() > 0 by {
        let bx = if x < i { x } else { x + 1 };
        assert(t[x] == b[bx]);
        if bx < i {
            assert(b[bx].node@ != b[i].node@);
        } else {
            assert(b[i].node@ != b[bx].node@);
        }
    }
}

/// Outstanding invoices, grouped by the node that issued them and keyed by id.
pub struct InvoiceRegistry {
    buckets: Vec<NodeInvoices>,
    model: Ghost<Map<Seq<char>, Map<usize, Invoice>>>,
}

impl InvoiceRegistry {
    /// The invoices of each node, by invoice id.
    pub closed spec fn invoices(&self) -> Map<Seq<char>, Map<usize, Invoice>> {
        self.model@
    }

    pub closed spec fn wf(&self) -> bool {
        registry_wf(self.buckets@, self.model@)
    }

    pub fn new() -> (r: InvoiceRegistry)
        ensures
            r.wf(),
            r.invoices() == Map::<Seq<char>, Map<usize, Invoice>>::empty(),
    {
        InvoiceRegistry { buckets: Vec::new(), model: Ghost(Map::empty()) }
    }

    fn find_bucket(&self, node: &ID) -> (r: Option<usize>)
        ensures
            r matches Some(i) ==> i < self.buckets@.len() && self.buckets@[i as int].node@ == node@,
            r.is_none() ==> forall|i: int|
                0 <= i < self.buckets@.len() ==> (#[trigger] self.buckets@[i]).node@ != node@,
    {
        let mut i: usize = 0;
        while i < self.buckets.len()
            invariant
                i <= self.buckets@.len(),
                forall|j: int| 0 <= j < i ==> (#[trigger] self.buckets@[j]).node@ != node@,
            decreases self.buckets@.len() - i,
        {
            if self.buckets[i].node == *node {
                return Some(i);
            }
            i = i + 1;
        }
        None
    }

    fn find_invoice(invoices: &Vec<Invoice>, id: usize) -> (r: Option<usize>)
        ensures
            r matches Some(a) ==> a < invoices@.len() && invoices@[a as int].id == id,
            r.is_none() ==> forall|a: int|
                0 <= a < invoices@.len() ==> (#[trigger] invoices@[a]).id != id,
    {
        let mut a: usize = 0;
        while a < invoices.len()
            invariant
                a <= invoices@.len(),
                forall|c: int| 0 <= c < a ==> (#[trigger] invoices@[c]).id != id,
            decreases invoices@.len() - a,
        {
            if invoices[a].id == id {
                return Some(a);
            }
            a = a + 1;
        }
        None
    }

    /// Files `invoice` under its destination, replacing one with the same id there.
    pub fn add(&mut self, invoice: Invoice)
        requires
            old(self).wf(),
        ensures
            final(self).wf(),
            final(self).invoices() == added(old(self).invoices(), invoice),
    {
        let ghost m = self.model@;
        let ghost b = self.buckets@;
        let ghost d = invoice.destination@;
        let ghost id = invoice.id;
        match self.find_bucket(&invoice.destination) {
            Some(i) => {
                let mut bucket = self.buckets.remove(i);
                let ghost inner = m[d];
                assert(b[i as int] == bucket);
                assert(lists_exactly(bucket.invoices@, inner));
                let ghost without = inner.remove(id);
                match Self::find_invoice(&bucket.invoices, invoice.id) {
                    Some(a) => {
                        proof {
                            lemma_list_remove(bucket.invoices@, inner, a as int);
                        }
                        bucket.invoices.remove(a);
                    },
                    None => {
                        assert(!inner.contains_key(id));
                        assert(without =~= inner);
                    },
                }
                proof {
                    lemma_list_push(bucket.invoices@, without, invoice);
                    assert(without.insert(id, invoice) =~= inner.insert(id, invoice));
                }
                bucket.invoices.push(invoice);
                self.buckets.insert(i, bucket);
                proof {
                    lemma_update_bucket(b, m, i as int, bucket, inner.insert(id, invoice));
                    assert(self.buckets@ =~= b.update(i as int, bucket));
                }
                self.model = Ghost(m.insert(d, inner.insert(id, invoice)));
            },
            None => {
                assert(!m.contains_key(d));
                let ghost inner = Map::<usize, Invoice>::empty();
                proof {
                    assert(lists_exactly(Seq::<Invoice>::empty(), inner));
                    lemma_list_push(Seq::<Invoice>::empty(), inner, invoice);
                    assert(Seq::<Invoice>::empty().push(invoice) =~= seq![invoice]);
                }
                let node = invoice.destination.clone();
                let bucket = NodeInvoices { node, invoices: vec![invoice] };
                self.buckets.push(bucket);
                let ghost nm = m.insert(d, inner.insert(id, invoice));
                self.model = Ghost(nm);
                proof {
                    let nb = self.buckets@;
                    assert forall|k: Seq<char>| nm.contains_key(k) implies exists|j: int|
                        0 <= j < nb.len() && (#[trigger] nb[j]).node@ == k by {
                        if k != d {
                            let j = choose|j: int| 0 <= j < b.len() && (#[trigger] b[j]).node@ == k;
                            assert(nb[j].node@ == k);
                        } else {
                            assert(nb[b.len() as int].node@ == k);
                        }
                    }
                    assert forall|j: int, l: int| 0 <= j < l < nb.len() implies (
                    #[trigger] nb[j]).node@ != (#[trigger] nb[l]).node@ by {
                        if l < b.len() {
                            assert(b[j].node@ != b[l].node@);
                        } else {
                            assert(nb[j] == b[j]);
                        }
                    }
                    assert forall|j: int| 0 <= j < nb.len() implies lists_exactly(
                        (#[trigger] nb[j]).invoices@,
                        nm[nb[j].node@],
                    ) && nb[j].invoices@.len() > 0 by {
                        if j < b.len() {
                            assert(nb[j] == b[j]);
                            assert(b[j].node@ != d);
                        }
                    }
                }
            },
        }
    }

    /// Number of nodes with outstanding invoices.
    pub fn num_nodes(&self) -> (r: usize)
        requires
            self.wf(),
        ensures
            r == self.invoices().dom().len(),
    {
        proof {
            let b = self.buckets@;
            let ns = b.map_values(|x: NodeInvoices| x.node@);
            assert forall|i: int, j: int|
                0 <= i < ns.len() && 0 <= j < ns.len() && i != j implies ns[i] != ns[j] by {
                if i < j {
                    assert(b[i].node@ != b[j].node@);
                } else {
                    assert(b[j].node@ != b[i].node@);
                }
            }
            ns.unique_seq_to_set();
            assert forall|k: Seq<char>| #[trigger] self.model@.contains_key(k) <==> ns.to_set().contains(k) by {
                if self.model@.contains_key(k) {
                    let i = choose|i: int| 0 <= i < b.len() && (#[trigger] b[i]).node@ == k;
                    assert(ns[i] == k);
                }
                if ns.to_set().contains(k) {
                    let i = choose|i: int| 0 <= i < ns.len() && ns[i] == k;
                    assert(b[i].node@ == k);
                }
            }
            assert(self.model@.dom() =~= ns.to_set());
        }
        self.buckets.len()
    }

    /// The invoices that `node` has issued, or `None` when it has none.
    pub fn get(&self, node: &ID) -> (r: Option<&Vec<Invoice>>)
        requires
            self.wf(),
        ensures
            r.is_none() <==> !self.invoices().contains_key(node@),
            r matches Some(v) ==> lists_exactly(v@, self.invoices()[node@]),
    {
        match self.find_bucket(node) {
            Some(i) => Some(&self.buckets[i].invoices),
            None => None,
        }
    }

    /// Takes back the invoice with `invoice`'s id from its destination, and
    /// the destination itself once it holds no other invoice. An invoice that
    /// is not there changes nothing.
    pub fn remove(&mut self, invoice: &Invoice)
        requires
            old(self).wf(),
        ensures
            final(self).wf(),
            final(self).invoices() == removed(old(self).invoices(), *invoice),
    {
        let ghost m = self.model@;
        let ghost b = self.buckets@;
        let ghost d = invoice.destination@;
        let ghost id = invoice.id;
        match self.find_bucket(&invoice.destination) {
            None => {
                assert(!m.contains_key(d));
            },
            Some(i) => {
                let mut bucket = self.buckets.remove(i);
                let ghost inner = m[d];
                assert(b[i as int] == bucket);
                assert(lists_exactly(bucket.invoices@, inner));
                assert(inner.contains_key(bucket.invoices@[0].id));
                match Self::find_invoice(&bucket.invoices, invoice.id) {
                    None => {
                        assert(!holds_only(inner, id));
                        assert(inner.remove(id) =~= inner);
                        assert(m.insert(d, inner.remove(id)) =~= m);
                        self.buckets.insert(i, bucket);
                        assert(self.buckets@ =~= b);
                    },
                    Some(a) => {
                        proof {
                            lemma_list_remove(bucket.invoices@, inner, a as int);
                        }
                        bucket.invoices.remove(a);
                        if bucket.invoices.len() == 0 {
                            proof {
                                assert forall|k: usize| #[trigger] inner.contains_key(k) implies k
                                    == id by {
                                    if k != id {
                                        assert(inner.remove(id).contains_key(k));
                                    }
                                }
                                lemma_remove_bucket(b, m, i as int);
                                assert(self.buckets@ =~= b.remove(i as int));
                            }
                            self.model = Ghost(m.remove(d));
                        } else {
                            proof {
                                let other = bucket.invoices@[0].id;
                                assert(inner.remove(id).contains_key(other));
                                assert(!holds_only(inner, id));
                                lemma_update_bucket(b, m, i as int, bucket, inner.remove(id));
                            }
                            self.buckets.insert(i, bucket);
                            assert(self.buckets@ =~= b.update(i as int, bucket));
                            self.model = Ghost(m.insert(d, inner.remove(id)));
                        }
                    },
                }
            },
        }
    }
}

/// Two invoices with distinct ids filed under one destination that had none
/// share that destination's single entry; taking the first back leaves the
/// second alone there; taking that one back too removes the destination, so
/// that it reads as absent rather than empty.
pub proof fn lemma_shared_destination(
    m: Map<Seq<char>, Map<usize, Invoice>>,
    first: Invoice,
    second: Invoice,
)
    requires
        !m.contains_key(first.destination@),
        second.destination@ == first.destination@,
        first.id != second.id,
    ensures
        ({
            let d = first.destination@;
            let both = added(added(m, first), second);
            let one = removed(both, first);
            &&& both.dom() == m.dom().insert(d)
            &&& both[d].dom() == set![first.id, second.id]
            &&& both[d][first.id] == first
            &&& both[d][second.id] == second
            &&& one.dom() == both.dom()
            &&& one[d].dom() == set![second.id]
            &&& one[d][second.id] == second
            &&& removed(one, second) == m
        }),
{
    let d = first.destination@;
    let both = added(added(m, first), second);
    let one = removed(both, first);
    assert(both.dom() =~= m.dom().insert(d));
    assert(both[d].dom() =~= set![first.id, second.id]);
    assert(!holds_only(both[d], first.id)) by {
        assert(both[d].contains_key(second.id));
    }
    assert(one.dom() =~= both.dom());
    assert(one[d].dom() =~= set![second.id]);
    assert(holds_only(one[d], second.id));
    assert(removed(one, second) =~= m);
}

/// A node that is listed holds at least one invoice: the registry keeps no
/// empty bucket.
pub proof fn lemma_no_empty_buckets(r: &InvoiceRegistry, node: Seq<char>)
    requires
        r.wf(),
        r.invoices().contains_key(node),
    ensures
        exists|id: usize| r.invoices()[node].contains_key(id),
{
    let b = r.buckets@;
    let i = choose|i: int| 0 <= i < b.len() && (#[trigger] b[i]).node@ == node;
    assert(lists_exactly(b[i].invoices@, r.invoices()[node]));
    assert(r.invoices()[node].contains_key(b[i].invoices@[0].id));
}

} // verus!
