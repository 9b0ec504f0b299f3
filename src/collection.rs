use vstd::prelude::*;

use crate::document::{document_at, Document, DocumentView};
use crate::errors::Error;
use crate::text::has_prefix;

verus! {

/// The documents of a mirror, in no particular order; several versions of
/// one document are several entries.
#[derive(Debug)]
pub struct Collection(Vec<Document>);

pub open spec fn docs_view(v: Seq<Document>) -> Seq<DocumentView> {
    v.map_values(|d: Document| d@)
}

impl View for Collection {
    type V = Seq<DocumentView>;

    closed spec fn view(&self) -> Seq<DocumentView> {
        docs_view(self.0@)
    }
}

pub open spec fn listing_view(v: Seq<(String, bool)>) -> Seq<(Seq<char>, bool)> {
    v.map_values(|e: (String, bool)| (e.0@, e.1))
}

/// The documents that a directory listing holds: the regular files whose
/// names are candidate documents, in listing order.
pub open spec fn listed(entries: Seq<(Seq<char>, bool)>) -> Seq<DocumentView>
    decreases entries.len(),
{
    if entries.len() == 0 {
        Seq::empty()
    } else {
        let rest = listed(entries.drop_last());
        let e = entries.last();
        if e.1 {
            match document_at(e.0) {
                Some(d) => rest.push(d),
                None => rest,
            }
        } else {
            rest
        }
    }
}

/// Whether a document's id begins with one of the given prefixes.
pub open spec fn of_type(types: Seq<Seq<char>>, d: DocumentView) -> bool {
    exists|k: int| 0 <= k < types.len() && #[trigger] types[k].is_prefix_of(d.id)
}

/// The documents whose id begins with one of the given prefixes, in order.
pub open spec fn of_types(docs: Seq<DocumentView>, types: Seq<Seq<char>>) -> Seq<DocumentView> {
    docs.filter(|d: DocumentView| of_type(types, d))
}

pub open spec fn strs_view(v: Seq<&str>) -> Seq<Seq<char>> {
    v.map_values(|s: &str| s@)
}

/// Whether document `j` ranks above document `i`: same family, and a newer
/// version, or the same version listed earlier.
pub open spec fn ranks_above(docs: Seq<DocumentView>, i: int, j: int) -> bool {
    docs[j].id == docs[i].id && (docs[j].version > docs[i].version || (docs[j].version
        == docs[i].version && j < i))
}

/// How many of the first `n` documents rank above document `i`.
pub open spec fn rank_upto(docs: Seq<DocumentView>, i: int, n: int) -> nat
    decreases n,
{
    if n <= 0 {
        0
    } else {
        rank_upto(docs, i, n - 1) + if ranks_above(docs, i, n - 1) {
            1nat
        } else {
            0nat
        }
    }
}

/// How many documents rank above document `i`.
pub open spec fn rank(docs: Seq<DocumentView>, i: int) -> nat {
    rank_upto(docs, i, docs.len() as int)
}

/// The documents among the first `n` that are among the `count` newest of
/// their family, in their order.
pub open spec fn newest_upto(docs: Seq<DocumentView>, count: nat, n: int) -> Seq<DocumentView>
    decreases n,
{
    if n <= 0 {
        Seq::empty()
    } else {
        let rest = newest_upto(docs, count, n - 1);
        if rank(docs, n - 1) < count {
            rest.push(docs[n - 1])
        } else {
            rest
        }
    }
}

/// The `count` newest documents of each family, in collection order.
pub open spec fn newest_of(docs: Seq<DocumentView>, count: nat) -> Seq<DocumentView> {
    newest_upto(docs, count, docs.len() as int)
}

/// Whether a document belongs to family `id`.
pub open spec fn same_id(id: Seq<char>) -> spec_fn(DocumentView) -> bool {
    |d: DocumentView| d.id == id
}

/// The documents of family `id`, in order.
pub open spec fn family(docs: Seq<DocumentView>, id: Seq<char>) -> Seq<DocumentView> {
    docs.filter(same_id(id))
}

/// The ids of the documents, in order.
pub open spec fn ids_of(docs: Seq<DocumentView>) -> Seq<Seq<char>> {
    docs.map_values(|d: DocumentView| d.id)
}

/// Among the first `n` documents of family `id`, one with the highest
/// version, the first listed of those.
proof fn lemma_best_upto(docs: Seq<DocumentView>, id: Seq<char>, n: int) -> (b: int)
    requires
        0 < n <= docs.len(),
        exists|j: int| 0 <= j < n && (#[trigger] docs[j]).id == id,
    ensures
        0 <= b < n,
        docs[b].id == id,
        forall|j: int| 0 <= j < n && (#[trigger] docs[j]).id == id ==> docs[j].version
            <= docs[b].version,
        forall|j: int| 0 <= j < b && (#[trigger] docs[j]).id == id ==> docs[j].version
            < docs[b].version,
    decreases n,
{
    if exists|j: int| 0 <= j < n - 1 && (#[trigger] docs[j]).id == id {
        let b0 = lemma_best_upto(docs, id, n - 1);
        if docs[n - 1].id == id && docs[n - 1].version > docs[b0].version {
            n - 1
        } else {
            b0
        }
    } else {
        n - 1
    }
}

proof fn lemma_rank_zero(docs: Seq<DocumentView>, i: int, n: int)
    requires
        0 <= n,
        forall|j: int| 0 <= j < n ==> !ranks_above(docs, i, j),
    ensures
        rank_upto(docs, i, n) == 0,
    decreases n,
{
    if n > 0 {
        lemma_rank_zero(docs, i, n - 1);
    }
}

proof fn lemma_rank_positive(docs: Seq<DocumentView>, i: int, j: int, n: int)
    requires
        0 <= j < n,
        ranks_above(docs, i, j),
    ensures
        rank_upto(docs, i, n) >= 1,
    decreases n,
{
    if n - 1 > j {
        lemma_rank_positive(docs, i, j, n - 1);
    }
}

proof fn lemma_family_of_newest_one(docs: Seq<DocumentView>, id: Seq<char>, b: int, n: int)
    requires
        0 <= b < docs.len(),
        0 <= n <= docs.len(),
        docs[b].id == id,
        rank(docs, b) == 0,
        forall|j: int| 0 <= j < docs.len() && j != b && (#[trigger] docs[j]).id == id ==> rank(
            docs,
            j,
        ) >= 1,
    ensures
        family(newest_upto(docs, 1, n), id) == if b < n {
            seq![docs[b]]
        } else {
            Seq::<DocumentView>::empty()
        },
    decreases n,
{
    reveal(Seq::filter);
    if n > 0 {
        lemma_family_of_newest_one(docs, id, b, n - 1);
        let prev = newest_upto(docs, 1, n - 1);
        if rank(docs, n - 1) < 1 {
            assert(prev.push(docs[n - 1]).drop_last() =~= prev);
            if n - 1 == b {
                assert(seq![docs[b]] =~= Seq::<DocumentView>::empty().push(docs[b]));
            }
        }
    } else {
        assert(family(Seq::<DocumentView>::empty(), id) =~= Seq::<DocumentView>::empty());
    }
}

/// Keeping one version per family keeps exactly one document of every
/// family, and it carries the family's highest version.
pub proof fn lemma_newest_one_per_family(docs: Seq<DocumentView>, i: int)
    requires
        0 <= i < docs.len(),
    ensures
        family(newest_of(docs, 1), docs[i].id).len() == 1,
        forall|j: int|
            0 <= j < docs.len() && (#[trigger] docs[j]).id == docs[i].id ==> docs[j].version
                <= family(newest_of(docs, 1), docs[i].id)[0].version,
{
    let id = docs[i].id;
    let n = docs.len() as int;
    assert(docs[i].id == id);
    let b = lemma_best_upto(docs, id, n);
    assert forall|j: int| 0 <= j < n implies !ranks_above(docs, b, j) by {
        if docs[j].id == id {
            if j < b {
                assert(docs[j].version < docs[b].version);
            }
        }
    }
    lemma_rank_zero(docs, b, n);
    assert forall|j: int| 0 <= j < n && j != b && (#[trigger] docs[j]).id == id implies rank(
        docs,
        j,
    ) >= 1 by {
        if j < b {
            assert(docs[j].version < docs[b].version);
        }
        assert(ranks_above(docs, j, b));
        lemma_rank_positive(docs, j, b, n);
    }
    lemma_family_of_newest_one(docs, id, b, n);
}

proof fn lemma_newest_from(docs: Seq<DocumentView>, count: nat, n: int)
    requires
        0 <= n <= docs.len(),
    ensures
        forall|k: int|
            #![trigger newest_upto(docs, count, n)[k]]
            0 <= k < newest_upto(docs, count, n).len() ==> exists|j: int|
                0 <= j < docs.len() && newest_upto(docs, count, n)[k] == #[trigger] docs[j],
    decreases n,
{
    if n > 0 {
        lemma_newest_from(docs, count, n - 1);
        let prev = newest_upto(docs, count, n - 1);
        let cur = newest_upto(docs, count, n);
        assert forall|k: int| #![trigger cur[k]] 0 <= k < cur.len() implies exists|j: int|
            0 <= j < docs.len() && cur[k] == #[trigger] docs[j] by {
            if k < prev.len() {
                assert(cur[k] == prev[k]);
            } else {
                assert(cur[k] == docs[n - 1]);
            }
        }
    }
}

proof fn lemma_filter_two(s: Seq<DocumentView>, pred: spec_fn(DocumentView) -> bool, k1: int, k2: int)
    requires
        0 <= k1 < k2 < s.len(),
        pred(s[k1]),
        pred(s[k2]),
    ensures
        s.filter(pred).len() >= 2,
    decreases s.len(),
{
    reveal(Seq::filter);
    let init = s.drop_last();
    assert(init[k1] == s[k1]);
    if k2 == s.len() - 1 {
        init.lemma_filter_contains(pred, k1);
    } else {
        assert(init[k2] == s[k2]);
        lemma_filter_two(init, pred, k1, k2);
    }
}

/// Keeping one version per family keeps as many documents as the
/// collection has distinct ids.
pub proof fn lemma_newest_one_count(docs: Seq<DocumentView>)
    ensures
        newest_of(docs, 1).len() == ids_of(docs).to_set().len(),
{
    let out = newest_of(docs, 1);
    let oi = ids_of(out);
    let di = ids_of(docs);
    lemma_newest_from(docs, 1, docs.len() as int);
    assert forall|k1: int, k2: int| 0 <= k1 < oi.len() && 0 <= k2 < oi.len() && k1 != k2 implies oi[k1]
        != oi[k2] by {
        if oi[k1] == oi[k2] {
            let j = choose|j: int| 0 <= j < docs.len() && out[k1] == #[trigger] docs[j];
            lemma_newest_one_per_family(docs, j);
            let x = docs[j].id;
            if k1 < k2 {
                lemma_filter_two(out, same_id(x), k1, k2);
            } else {
                lemma_filter_two(out, same_id(x), k2, k1);
            }
        }
    }
    assert(oi.no_duplicates());
    oi.unique_seq_to_set();
    assert forall|x: Seq<char>| oi.to_set().contains(x) implies di.to_set().contains(x) by {
        let k = choose|k: int| 0 <= k < oi.len() && oi[k] == x;
        let j = choose|j: int| 0 <= j < docs.len() && out[k] == #[trigger] docs[j];
        assert(di[j] == x);
    }
    assert forall|x: Seq<char>| di.to_set().contains(x) implies oi.to_set().contains(x) by {
        let i = choose|i: int| 0 <= i < di.len() && di[i] == x;
        lemma_newest_one_per_family(docs, i);
        let f = family(out, x);
        out.lemma_filter_pred(same_id(x), 0);
        assert(f.contains(f[0]));
        out.lemma_filter_contains_rev(same_id(x), f[0]);
        let k = choose|k: int| 0 <= k < out.len() && out[k] == f[0];
        assert(oi[k] == x);
    }
    assert(oi.to_set() =~= di.to_set());
}

impl Collection {
    /// Every document of the collection is well formed.
    pub closed spec fn wf(&self) -> bool {
        forall|i: int| 0 <= i < self.0@.len() ==> (#[trigger] self.0@[i]).wf()
    }

    /// Collects the documents of a directory listing: each entry is a path
    /// and whether it is a regular file. Other entries, and files whose names
    /// are no candidate documents, are skipped.
    pub fn from_listing(entries: &Vec<(String, bool)>) -> (r: Result<Collection, Error>)
        ensures
            r matches Ok(c) && c.wf() && c@ == listed(listing_view(entries@)),
    {
        let ghost ev = listing_view(entries@);
        let mut docs: Vec<Document> = Vec::new();
        assert(docs_view(docs@) =~= Seq::<DocumentView>::empty());
        let mut i: usize = 0;
        while i < entries.len()
            invariant
                ev == listing_view(entries@),
                i <= ev.len(),
                docs_view(docs@) == listed(ev.subrange(0, i as int)),
                forall|k: int| 0 <= k < docs@.len() ==> (#[trigger] docs@[k]).wf(),
            decreases ev.len() - i,
        {
            let ghost before = docs@;
            assert(ev.subrange(0, i + 1).drop_last() =~= ev.subrange(0, i as int));
            assert(ev.subrange(0, i + 1).last() == (entries@[i as int].0@, entries@[i as int].1));
            if entries[i].1 {
                match Document::from_path(entries[i].0.clone()) {
                    Some(Ok(doc)) => {
                        docs.push(doc);
                        assert(docs_view(docs@) =~= docs_view(before).push(docs@.last()@));
                    },
                    Some(Err(e)) => {
                        return Err(e);
                    },
                    None => {},
                }
            }
            i = i + 1;
        }
        assert(ev.subrange(0, i as int) =~= ev);
        Ok(Collection(docs))
    }

    /// The documents whose id begins with one of `types`; all of them when
    /// no types are given.
    pub fn filter_types(&self, types: Option<Vec<&str>>) -> (r: Collection)
        requires
            self.wf(),
        ensures
            r.wf(),
            r@ == match types {
                Some(ts) => of_types(self@, strs_view(ts@)),
                None => self@,
            },
    {
        match types {
            None => self.duplicate(),
            Some(ts) => {
                let ghost tv = strs_view(ts@);
                let mut kept: Vec<Document> = Vec::new();
                let mut i: usize = 0;
                while i < self.0.len()
                    invariant
                        i <= self.0@.len(),
                        self.wf(),
                        tv == strs_view(ts@),
                        docs_view(kept@) == of_types(docs_view(self.0@).subrange(0, i as int), tv),
                        forall|k: int| 0 <= k < kept@.len() ==> (#[trigger] kept@[k]).wf(),
                    decreases self.0@.len() - i,
                {
                    let ghost before = kept@;
                    let ghost all = docs_view(self.0@);
                    assert(all.subrange(0, i + 1).drop_last() =~= all.subrange(0, i as int));
                    let doc = &self.0[i];
                    let mut hit = false;
                    let mut k: usize = 0;
                    while k < ts.len()
                        invariant
                            k <= ts@.len(),
                            tv == strs_view(ts@),
                            hit == exists|q: int| 0 <= q < k && #[trigger] tv[q].is_prefix_of(doc@.id),
                        decreases ts@.len() - k,
                    {
                        if has_prefix(doc.id().as_str(), ts[k]) {
                            assert(tv[k as int].is_prefix_of(doc@.id));
                            hit = true;
                        }
                        k = k + 1;
                    }
                    assert(hit == of_type(tv, all[i as int]));
                    assert(all.subrange(0, i + 1).last() == all[i as int]);
                    if hit {
                        kept.push(doc.clone());
                        assert(docs_view(kept@) =~= docs_view(before).push(all[i as int]));
                    }
                    proof {
                        let xs = all.subrange(0, i + 1);
                        let f = |d: DocumentView| of_type(tv, d);
                        reveal(Seq::filter);
                        assert(xs.drop_last() == all.subrange(0, i as int));
                        assert(f(xs.last()) == hit);
                    }
                    assert(docs_view(kept@) == of_types(all.subrange(0, i + 1), tv));
                    i = i + 1;
                }
                assert(docs_view(self.0@).subrange(0, i as int) =~= docs_view(self.0@));
                Collection(kept)
            },
        }
    }

    /// Keeps, of each family of documents sharing an id, the `count` with the
    /// highest versions (of equal versions, the one listed first ranks
    /// higher). Families with fewer versions keep them all; the order of the
    /// collection is kept.
    pub fn newest(&self, count: u8) -> (r: Collection)
        requires
            self.wf(),
        ensures
            r.wf(),
            r@ == newest_of(self@, count as nat),
    {
        let ghost all = self@;
        let n = self.0.len();
        let mut kept: Vec<Document> = Vec::new();
        assert(docs_view(kept@) =~= Seq::<DocumentView>::empty());
        let mut i: usize = 0;
        while i < n
            invariant
                n == all.len(),
                all == self@,
                self.wf(),
                i <= n,
                docs_view(kept@) == newest_upto(all, count as nat, i as int),
                forall|k: int| 0 <= k < kept@.len() ==> (#[trigger] kept@[k]).wf(),
            decreases n - i,
        {
            let di = &self.0[i];
            assert(di@ == all[i as int]);
            let mut above: usize = 0;
            let mut j: usize = 0;
            while j < n
                invariant
                    n == all.len(),
                    all == self@,
                    i < n,
                    j <= n,
                    di@ == all[i as int],
                    above as nat == rank_upto(all, i as int, j as int),
                    above <= j,
                decreases n - j,
            {
                let dj = &self.0[j];
                assert(dj@ == all[j as int]);
                if *dj.id() == *di.id() && (*dj.version() > *di.version() || (*dj.version()
                    == *di.version() && j < i)) {
                    above = above + 1;
                }
                j = j + 1;
            }
            let ghost before = kept@;
            if above < count as usize {
                kept.push(di.clone());
                assert(docs_view(kept@) =~= docs_view(before).push(all[i as int]));
            }
            i = i + 1;
        }
        Collection(kept)
    }

    /// The number of documents.
    pub fn len(&self) -> (r: usize)
        ensures
            r == self@.len(),
    {
        self.0.len()
    }

    /// The documents, in collection order.
    pub fn documents(&self) -> (r: &Vec<Document>)
        ensures
            docs_view(r@) == self@,
    {
        &self.0
    }

    /// Hands the documents over, in collection order.
    pub fn into_documents(self) -> (r: Vec<Document>)
        ensures
            docs_view(r@) == self@,
    {
        self.0
    }

    fn duplicate(&self) -> (r: Collection)
        requires
            self.wf(),
        ensures
            r.wf(),
            r@ == self@,
    {
        let mut docs: Vec<Document> = Vec::new();
        let mut i: usize = 0;
        while i < self.0.len()
            invariant
                i <= self.0@.len(),
                self.wf(),
                docs_view(docs@) == docs_view(self.0@).subrange(0, i as int),
                forall|k: int| 0 <= k < docs@.len() ==> (#[trigger] docs@[k]).wf(),
            decreases self.0@.len() - i,
        {
            let ghost before = docs@;
            docs.push(self.0[i].clone());
            assert(docs_view(docs@) =~= docs_view(before).push(self@[i as int]));
            i = i + 1;
            assert(docs_view(self.0@).subrange(0, i as int) =~= docs_view(self.0@).subrange(
                0,
                i - 1,
            ).push(self@[i - 1]));
        }
        assert(docs_view(self.0@).subrange(0, i as int) =~= docs_view(self.0@));
        Collection(docs)
    }
}

} // verus!
