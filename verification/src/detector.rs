//! Detection of similar documents across repositories: fingerprints are
//! grouped into documents, indexed by hash, and pairs of documents are
//! compared by the fingerprints they share.

use std::collections::HashMap;
use vstd::prelude::*;

use crate::winnowing::{Fingerprint, FingerprintView, Location, LocationView, fingerprints_view};

verus! {

// ---------------------------------------------------------------------------
// Types
// ---------------------------------------------------------------------------
/// A document: the fingerprints of one file of one commit of one repository.
#[derive(Debug, Clone, PartialEq, Eq, Hash)]
pub struct Document {
    pub repo: String,
    pub commit: [u8; 20],
    pub file: String,
}

/// A document as plain values: repository, commit, file.
pub type DocumentView = (Seq<char>, Seq<u8>, Seq<char>);

impl View for Document {
    type V = DocumentView;

    open spec fn view(&self) -> DocumentView {
        (self.repo@, self.commit@, self.file@)
    }
}

/// Two documents (by their positions among the detected documents) and the
/// fingerprints of the first that match the second.
#[derive(Debug, Clone, PartialEq, Eq)]
pub struct DetectorPair {
    pub a: usize,
    pub b: usize,
    pub fingerprints: Vec<Fingerprint>,
}

/// A pair as plain values.
pub type PairView = (usize, usize, Seq<FingerprintView>);

impl View for DetectorPair {
    type V = PairView;

    open spec fn view(&self) -> PairView {
        (self.a, self.b, fingerprints_view(self.fingerprints@))
    }
}

/// What detection finds: the documents with their fingerprints, the keys of
/// the inverted index, the locations of the interesting fingerprints, and
/// the compared pairs of documents, most matches first.
#[derive(Debug, Clone)]
pub struct Detection {
    pub documents: Vec<Document>,
    pub document_fingerprints: Vec<Vec<Fingerprint>>,
    pub index_keys: Vec<u64>,
    pub interesting: Vec<Location>,
    pub pairs: Vec<DetectorPair>,
}

// ---------------------------------------------------------------------------
// Generic sequence facts
// ---------------------------------------------------------------------------
/// The distinct items of `s`, in the order of their first occurrence.
pub open spec fn dedup<A>(s: Seq<A>) -> Seq<A>
    decreases s.len(),
{
    if s.len() == 0 {
        s
    } else {
        let d = dedup(s.drop_last());
        if d.contains(s.last()) {
            d
        } else {
            d.push(s.last())
        }
    }
}

/// `dedup` keeps exactly the items of `s`, each once.
pub proof fn lemma_dedup<A>(s: Seq<A>)
    ensures
        dedup(s).no_duplicates(),
        forall|x: A| dedup(s).contains(x) <==> s.contains(x),
    decreases s.len(),
{
    if s.len() > 0 {
        lemma_dedup(s.drop_last());
        let d = dedup(s.drop_last());
        let t = s.drop_last();
        assert forall|x: A| dedup(s).contains(x) <==> s.contains(x) by {
            assert(d.contains(x) <==> t.contains(x));
            if s.contains(x) {
                let i = choose|i: int| 0 <= i < s.len() && s[i] == x;
                if i < s.len() - 1 {
                    assert(t[i] == x);
                    assert(t.contains(x));
                } else {
                    assert(x == s.last());
                    if !d.contains(s.last()) {
                        assert(d.push(s.last())[d.len() as int] == s.last());
                    }
                }
            }
            if d.contains(x) {
                let i = choose|i: int| 0 <= i < t.len() && t[i] == x;
                assert(s[i] == x);
                if !d.contains(s.last()) {
                    let k = choose|k: int| 0 <= k < d.len() && d[k] == x;
                    assert(d.push(s.last())[k] == x);
                }
            }
            if dedup(s).contains(x) && !d.contains(x) {
                assert(!d.contains(s.last()));
                let k = choose|k: int| 0 <= k < d.len() + 1 && d.push(s.last())[k] == x;
                if k < d.len() {
                    assert(d[k] == x);
                }
                assert(x == s.last());
                assert(s[s.len() - 1] == x);
            }
        }
        if !d.contains(s.last()) {
            let e = d.push(s.last());
            assert forall|i: int, j: int| 0 <= i < j < e.len() implies e[i] != e[j] by {
                if j == e.len() - 1 {
                    assert(d[i] == e[i]);
                }
            }
        }
    }
}

/// An item of a flattened sequence is an item of one of its parts.
pub proof fn lemma_flatten_contains<A>(s: Seq<Seq<A>>)
    ensures
        forall|x: A|
            s.flatten().contains(x) <==> exists|i: int| 0 <= i < s.len() && (#[trigger] s[i]).contains(x),
    decreases s.len(),
{
    if s.len() > 0 {
        lemma_flatten_contains(s.drop_first());
        let t = s.drop_first().flatten();
        assert(s.flatten() == s[0] + t);
        assert forall|x: A|
            s.flatten().contains(x) <==> exists|i: int| 0 <= i < s.len() && (#[trigger] s[i]).contains(x) by {
            if s.flatten().contains(x) {
                let k = choose|k: int| 0 <= k < s.flatten().len() && s.flatten()[k] == x;
                if k < s[0].len() {
                    assert(s[0][k] == x);
                    assert(s[0].contains(x));
                } else {
                    assert(t[k - s[0].len()] == x);
                    assert(t.contains(x));
                    let i = choose|i: int| 0 <= i < s.drop_first().len() && (#[trigger] s.drop_first()[i]).contains(x);
                    assert(s[i + 1] == s.drop_first()[i]);
                }
            }
            if exists|i: int| 0 <= i < s.len() && (#[trigger] s[i]).contains(x) {
                let i = choose|i: int| 0 <= i < s.len() && (#[trigger] s[i]).contains(x);
                let k = choose|k: int| 0 <= k < s[i].len() && s[i][k] == x;
                if i == 0 {
                    assert(s.flatten()[k] == x);
                } else {
                    assert(s.drop_first()[i - 1] == s[i]);
                    assert(t.contains(x));
                    let m = choose|m: int| 0 <= m < t.len() && t[m] == x;
                    assert(s.flatten()[s[0].len() + m] == x);
                }
            }
        }
    } else {
        assert forall|x: A| !s.flatten().contains(x) by {}
    }
}

/// Filtering one more item.
pub proof fn lemma_filter_push<A>(s: Seq<A>, x: A, p: spec_fn(A) -> bool)
    ensures
        s.push(x).filter(p) == (if p(x) {
            s.filter(p).push(x)
        } else {
            s.filter(p)
        }),
{
    reveal(Seq::filter);
    assert(s.push(x).drop_last() =~= s);
}

/// Filtering keeps nothing when no item passes.
pub proof fn lemma_filter_none<A>(s: Seq<A>, p: spec_fn(A) -> bool)
    requires
        forall|i: int| 0 <= i < s.len() ==> !p(#[trigger] s[i]),
    ensures
        s.filter(p).len() == 0,
{
    broadcast use Seq::lemma_filter_pred, Seq::lemma_filter_contains_rev;

    if s.filter(p).len() > 0 {
        let x = s.filter(p)[0];
        assert(s.filter(p).contains(x));
        assert(s.contains(x));
    }
}

// ---------------------------------------------------------------------------
// Specification of detection
// ---------------------------------------------------------------------------
/// The input of detection as plain values: each repository name with its
/// fingerprints.
pub type RepoView = (Seq<char>, Seq<FingerprintView>);

pub open spec fn repos_view(rm: Seq<(String, Vec<Fingerprint>)>) -> Seq<RepoView> {
    rm.map_values(|p: (String, Vec<Fingerprint>)| (p.0@, fingerprints_view(p.1@)))
}

/// The document of a fingerprint listed under repository `repo`.
pub open spec fn document_of(repo: Seq<char>, f: FingerprintView) -> DocumentView {
    (repo, f.1.1, f.1.2)
}

/// Every fingerprint of the input with its document, repository after
/// repository.
pub open spec fn entries(rm: Seq<RepoView>) -> Seq<(DocumentView, FingerprintView)> {
    rm.map_values(
        |p: RepoView| p.1.map_values(|f: FingerprintView| (document_of(p.0, f), f)),
    ).flatten()
}

/// The documents, in the order in which their first fingerprint comes.
pub open spec fn documents_of(es: Seq<(DocumentView, FingerprintView)>) -> Seq<DocumentView> {
    dedup(es.map_values(|e: (DocumentView, FingerprintView)| e.0))
}

/// The predicate "this entry belongs to document `d`".
pub open spec fn in_document(d: DocumentView) -> spec_fn((DocumentView, FingerprintView)) -> bool {
    |e: (DocumentView, FingerprintView)| e.0 == d
}

/// The fingerprints of document `d`, in input order.
pub open spec fn document_fingerprints(
    es: Seq<(DocumentView, FingerprintView)>,
    d: DocumentView,
) -> Seq<FingerprintView> {
    es.filter(in_document(d)).map_values(|e: (DocumentView, FingerprintView)| e.1)
}

/// The fingerprint lists of the documents, in document order.
pub open spec fn document_lists(es: Seq<(DocumentView, FingerprintView)>) -> Seq<Seq<FingerprintView>> {
    documents_of(es).map_values(|d: DocumentView| document_fingerprints(es, d))
}

/// All fingerprints, document after document: the order in which the
/// inverted index receives them.
pub open spec fn all_fingerprints(es: Seq<(DocumentView, FingerprintView)>) -> Seq<FingerprintView> {
    document_lists(es).flatten()
}

/// The predicate "this fingerprint has hash `h`".
pub open spec fn has_hash(h: u64) -> spec_fn(FingerprintView) -> bool {
    |g: FingerprintView| g.0 == h
}

/// The inverted index at `h`: the fingerprints with hash `h`, in order.
pub open spec fn index_of(all: Seq<FingerprintView>, h: u64) -> Seq<FingerprintView> {
    all.filter(has_hash(h))
}

/// The hashes of a sequence of fingerprints.
pub open spec fn hashes_of(all: Seq<FingerprintView>) -> Seq<u64> {
    all.map_values(|g: FingerprintView| g.0)
}

/// The predicate "this fingerprint lies in a repository other than `repo`".
pub open spec fn other_repo(repo: Seq<char>) -> spec_fn(FingerprintView) -> bool {
    |g: FingerprintView| g.1.0 != repo
}

/// The repositories other than `repo` that hold a fingerprint with hash
/// `h`, each once, in index order.
pub open spec fn other_repos(all: Seq<FingerprintView>, repo: Seq<char>, h: u64) -> Seq<Seq<char>> {
    dedup(index_of(all, h).filter(other_repo(repo)).map_values(|g: FingerprintView| g.1.0))
}

/// The popularity of hash `h` seen from repository `repo`: the number of
/// distinct repositories holding it, not counting `repo`.
pub open spec fn popularity(all: Seq<FingerprintView>, repo: Seq<char>, h: u64) -> nat {
    other_repos(all, repo, h).len()
}

/// The popularity cutoffs: a hash seen from `repo` is kept when it is found
/// in at least one other repository and in fewer than 1000.
pub open spec fn interesting_hash(all: Seq<FingerprintView>, repo: Seq<char>, h: u64) -> bool {
    0 < popularity(all, repo, h) < 1000
}

/// The predicate "fingerprint `f` of document `d` survives the popularity
/// cutoffs".
pub open spec fn interesting(all: Seq<FingerprintView>, d: DocumentView) -> spec_fn(
    FingerprintView,
) -> bool {
    |f: FingerprintView| interesting_hash(all, d.0, f.0)
}

/// The locations of the interesting fingerprints, each once, in order of
/// first appearance.
pub open spec fn interesting_locations(es: Seq<(DocumentView, FingerprintView)>) -> Seq<
    LocationView,
> {
    interesting_of(documents_of(es), document_lists(es), all_fingerprints(es))
}

/// The view of (document, fingerprint) entries.
pub open spec fn entries_view(s: Seq<(Document, Fingerprint)>) -> Seq<(DocumentView, FingerprintView)> {
    s.map_values(|e: (Document, Fingerprint)| (e.0@, e.1@))
}

/// The views of documents.
pub open spec fn documents_view(s: Seq<Document>) -> Seq<DocumentView> {
    s.map_values(|d: Document| d@)
}

// ---------------------------------------------------------------------------
// Comparisons
// ---------------------------------------------------------------------------
/// Whether two commit ids are equal.
fn same_commit(a: &[u8; 20], b: &[u8; 20]) -> (r: bool)
    ensures
        r == (a@ == b@),
{
    for i in 0..20
        invariant
            a@.len() == 20,
            b@.len() == 20,
            forall|k: int| 0 <= k < i ==> a@[k] == b@[k],
    {
        if a[i] != b[i] {
            return false;
        }
    }
    assert(a@ =~= b@);
    true
}

/// Whether fingerprint `f` was found in the repository, commit and file of
/// document `d`.
pub fn from_same_doc(d: &Document, f: &Fingerprint) -> (r: bool)
    ensures
        r == (d@ == (f.location.repo@, f.location.commit@, f.location.file@)),
{
    d.repo == f.location.repo && same_commit(&d.commit, &f.location.commit) && d.file
        == f.location.file
}

/// Whether two documents are the same.
fn same_document(a: &Document, b: &Document) -> (r: bool)
    ensures
        r == (a@ == b@),
{
    a.repo == b.repo && same_commit(&a.commit, &b.commit) && a.file == b.file
}

/// Whether two locations are the same.
fn same_location(a: &Location, b: &Location) -> (r: bool)
    ensures
        r == (a@ == b@),
{
    a.repo == b.repo && same_commit(&a.commit, &b.commit) && a.file == b.file && a.line == b.line
}

impl Document {
    /// A copy of this document.
    pub fn duplicate(&self) -> (r: Document)
        ensures
            r == *self,
    {
        Document { repo: self.repo.clone(), commit: self.commit, file: self.file.clone() }
    }
}

// ---------------------------------------------------------------------------
// Grouping fingerprints into documents
// ---------------------------------------------------------------------------
/// Every fingerprint of the input with its document (the repository name of
/// the input, the fingerprint's commit and file).
fn collect_entries(rm: &Vec<(String, Vec<Fingerprint>)>) -> (r: Vec<(Document, Fingerprint)>)
    ensures
        entries_view(r@) == entries(repos_view(rm@)),
{
    let ghost rv = repos_view(rm@);
    let mut out: Vec<(Document, Fingerprint)> = Vec::new();
    let n = rm.len();
    for i in 0..n
        invariant
            n == rm@.len(),
            rv == repos_view(rm@),
            entries_view(out@) == entries(rv.take(i as int)),
    {
        let repo = &rm[i].0;
        let fps = &rm[i].1;
        let ghost p = rv[i as int];
        assert(p == (repo@, fingerprints_view(fps@)));
        let ghost before = out@;
        let m = fps.len();
        for j in 0..m
            invariant
                m == fps@.len(),
                p == (repo@, fingerprints_view(fps@)),
                entries_view(out@) == entries_view(before) + p.1.take(j as int).map_values(
                    |f: FingerprintView| (document_of(p.0, f), f),
                ),
        {
            let f = &fps[j];
            let d = Document {
                repo: repo.clone(),
                commit: f.location.commit,
                file: f.location.file.clone(),
            };
            let ghost prev = out@;
            out.push((d, f.duplicate()));
            assert(p.1[j as int] == f@);
            assert(entries_view(out@) =~= entries_view(prev).push((document_of(p.0, f@), f@)));
            assert(p.1.take(j + 1).map_values(|f: FingerprintView| (document_of(p.0, f), f))
                =~= p.1.take(j as int).map_values(|f: FingerprintView| (document_of(p.0, f), f)).push(
                (document_of(p.0, f@), f@),
            ));
        }
        proof {
            let g = |p: RepoView| p.1.map_values(|f: FingerprintView| (document_of(p.0, f), f));
            assert(p.1.take(m as int) =~= p.1);
            assert(rv.take(i + 1).map_values(g) =~= rv.take(i as int).map_values(g).push(g(p)));
            rv.take(i as int).map_values(g).lemma_flatten_push(g(p));
        }
    }
    assert(rv.take(n as int) =~= rv);
    out
}

/// Groups entries by document: the documents in order of first appearance,
/// and for each the fingerprints of its entries, in order.
fn group_documents(es: &Vec<(Document, Fingerprint)>) -> (r: (Vec<Document>, Vec<Vec<Fingerprint>>))
    ensures
        documents_view(r.0@) == documents_of(entries_view(es@)),
        r.1@.len() == r.0@.len(),
        forall|i: int|
            0 <= i < r.1@.len() ==> fingerprints_view(#[trigger] r.1@[i]@) == document_fingerprints(
                entries_view(es@),
                documents_of(entries_view(es@))[i],
            ),
{
    let ghost ev = entries_view(es@);
    let mut docs: Vec<Document> = Vec::new();
    let mut fps: Vec<Vec<Fingerprint>> = Vec::new();
    let n = es.len();
    for k in 0..n
        invariant
            n == es@.len(),
            ev == entries_view(es@),
            documents_view(docs@) == documents_of(ev.take(k as int)),
            fps@.len() == docs@.len(),
            forall|i: int|
                0 <= i < fps@.len() ==> fingerprints_view(#[trigger] fps@[i]@)
                    == document_fingerprints(ev.take(k as int), documents_view(docs@)[i]),
    {
        let ghost p = ev.take(k as int);
        let ghost e = ev[k as int];
        let ghost keys = p.map_values(|e: (DocumentView, FingerprintView)| e.0);
        let d = &es[k].0;
        let f = &es[k].1;
        assert(e == (d@, f@));
        assert(ev.take(k + 1) =~= p.push(e));
        assert(ev.take(k + 1).map_values(|e: (DocumentView, FingerprintView)| e.0) =~= keys.push(
            e.0,
        ));
        proof {
            lemma_dedup(keys);
            assert(keys.push(e.0).drop_last() =~= keys);
            assert(keys.push(e.0).last() == e.0);
        }
        let ghost dv = documents_view(docs@);
        let mut found: Option<usize> = None;
        let nd = docs.len();
        for j in 0..nd
            invariant
                nd == docs@.len(),
                dv == documents_view(docs@),
                found matches Some(x) ==> x < nd && dv[x as int] == d@,
                found is None ==> forall|q: int| 0 <= q < j ==> dv[q] != d@,
        {
            if found.is_none() && same_document(&docs[j], d) {
                found = Some(j);
            }
        }
        match found {
            Some(x) => {
                let ghost old_fps = fps@;
                let g = f.duplicate();
                fps[x].push(g);
                proof {
                    assert(dv.contains(d@));
                    assert forall|i: int| 0 <= i < fps@.len() implies fingerprints_view(
                        #[trigger] fps@[i]@,
                    ) == document_fingerprints(ev.take(k + 1), documents_view(docs@)[i]) by {
                        lemma_filter_push(p, e, in_document(dv[i]));
                        if i == x {
                            assert(fingerprints_view(fps@[i]@) =~= fingerprints_view(old_fps[i]@).push(f@));
                            assert(p.push(e).filter(in_document(dv[i])).map_values(
                                |e: (DocumentView, FingerprintView)| e.1,
                            ) =~= p.filter(in_document(dv[i])).map_values(
                                |e: (DocumentView, FingerprintView)| e.1,
                            ).push(e.1));
                        } else {
                            assert(dv[i] != dv[x as int]);
                            assert(fps@[i] == old_fps[i]);
                        }
                    }
                }
            },
            None => {
                let ghost old_fps = fps@;
                let mut v: Vec<Fingerprint> = Vec::new();
                v.push(f.duplicate());
                docs.push(d.duplicate());
                fps.push(v);
                proof {
                    assert(!dv.contains(d@));
                    assert(!keys.contains(d@));
                    assert(documents_view(docs@) =~= dv.push(d@));
                    assert forall|i: int| 0 <= i < fps@.len() implies fingerprints_view(
                        #[trigger] fps@[i]@,
                    ) == document_fingerprints(ev.take(k + 1), documents_view(docs@)[i]) by {
                        let dvi = documents_view(docs@)[i];
                        lemma_filter_push(p, e, in_document(dvi));
                        if i == nd {
                            assert forall|q: int| 0 <= q < p.len() implies !in_document(dvi)(
                                #[trigger] p[q],
                            ) by {
                                assert(keys[q] == p[q].0);
                            }
                            lemma_filter_none(p, in_document(dvi));
                            assert(p.filter(in_document(dvi)) =~= Seq::<
                                (DocumentView, FingerprintView),
                            >::empty());
                            assert(fingerprints_view(fps@[i]@) =~= seq![f@]);
                            assert(p.push(e).filter(in_document(dvi)).map_values(
                                |e: (DocumentView, FingerprintView)| e.1,
                            ) =~= seq![f@]);
                        } else {
                            assert(dvi == dv[i]);
                            assert(dv.contains(dvi));
                            assert(dvi != d@);
                            assert(fps@[i] == old_fps[i]);
                        }
                    }
                }
            },
        }
    }
    assert(ev.take(n as int) =~= ev);
    (docs, fps)
}

// ---------------------------------------------------------------------------
// The inverted index
// ---------------------------------------------------------------------------
/// The views of lists of fingerprints.
pub open spec fn lists_view(s: Seq<Vec<Fingerprint>>) -> Seq<Seq<FingerprintView>> {
    s.map_values(|v: Vec<Fingerprint>| fingerprints_view(v@))
}

/// The inverted index `m` with key list `keys` is exact for the fingerprints
/// `seen`.
pub open spec fn index_exact(
    m: Map<u64, Vec<Fingerprint>>,
    keys: Seq<u64>,
    seen: Seq<FingerprintView>,
) -> bool {
    &&& keys == dedup(hashes_of(seen))
    &&& forall|h: u64| #[trigger] m.contains_key(h) <==> hashes_of(seen).contains(h)
    &&& forall|h: u64|
        #[trigger] m.contains_key(h) ==> fingerprints_view(m[h]@) == index_of(seen, h)
}

/// Adds one fingerprint to an exact index.
fn index_add(
    m: &mut HashMap<u64, Vec<Fingerprint>>,
    keys: &mut Vec<u64>,
    g: &Fingerprint,
    Ghost(seen): Ghost<Seq<FingerprintView>>,
)
    requires
        index_exact(old(m)@, old(keys)@, seen),
    ensures
        index_exact(final(m)@, final(keys)@, seen.push(g@)),
{
    let h = g.hash;
    proof {
        lemma_dedup(hashes_of(seen));
        assert(hashes_of(seen.push(g@)) =~= hashes_of(seen).push(h));
        assert(hashes_of(seen).push(h).drop_last() =~= hashes_of(seen));
    }
    let mut bucket = match m.remove(&h) {
        Some(b) => b,
        None => {
            keys.push(h);
            Vec::new()
        },
    };
    let ghost old_bucket = bucket@;
    bucket.push(g.duplicate());
    m.insert(h, bucket);
    proof {
        let s2 = seen.push(g@);
        assert forall|k: u64| #[trigger] m@.contains_key(k) <==> hashes_of(s2).contains(k) by {
            if k == h {
                assert(hashes_of(s2)[seen.len() as int] == h);
            } else if hashes_of(s2).contains(k) {
                let i = choose|i: int| 0 <= i < hashes_of(s2).len() && hashes_of(s2)[i] == k;
                assert(hashes_of(seen)[i] == k);
            }
        }
        assert forall|k: u64| #[trigger] m@.contains_key(k) implies fingerprints_view(m@[k]@)
            == index_of(s2, k) by {
            lemma_filter_push(seen, g@, has_hash(k));
            if k == h {
                if old(m)@.contains_key(h) {
                    assert(fingerprints_view(m@[k]@) =~= fingerprints_view(old_bucket).push(g@));
                } else {
                    assert(!hashes_of(seen).contains(h));
                    assert forall|i: int| 0 <= i < seen.len() implies !has_hash(h)(
                        #[trigger] seen[i],
                    ) by {
                        assert(hashes_of(seen)[i] == seen[i].0);
                    }
                    lemma_filter_none(seen, has_hash(h));
                    assert(fingerprints_view(m@[k]@) =~= seq![g@]);
                    assert(index_of(s2, k) =~= seq![g@]);
                }
            }
        }
    }
}

/// Builds the inverted index of the fingerprints of all documents, in
/// document order, with its keys in order of first appearance.
fn build_index(lists: &Vec<Vec<Fingerprint>>) -> (r: (HashMap<u64, Vec<Fingerprint>>, Vec<u64>))
    ensures
        index_exact(r.0@, r.1@, lists_view(lists@).flatten()),
{
    let ghost lv = lists_view(lists@);
    let mut m: HashMap<u64, Vec<Fingerprint>> = HashMap::new();
    let mut keys: Vec<u64> = Vec::new();
    let ghost mut seen: Seq<FingerprintView> = Seq::empty();
    proof {
        assert(hashes_of(seen) =~= Seq::<u64>::empty());
        assert(dedup(hashes_of(seen)) =~= Seq::<u64>::empty());
    }
    let n = lists.len();
    for i in 0..n
        invariant
            n == lists@.len(),
            lv == lists_view(lists@),
            seen == lv.take(i as int).flatten(),
            index_exact(m@, keys@, seen),
    {
        let list = &lists[i];
        let ghost before = seen;
        assert(lv[i as int] == fingerprints_view(list@));
        let len = list.len();
        for j in 0..len
            invariant
                len == list@.len(),
                lv[i as int] == fingerprints_view(list@),
                seen == before + lv[i as int].take(j as int),
                index_exact(m@, keys@, seen),
        {
            let g = &list[j];
            index_add(&mut m, &mut keys, g, Ghost(seen));
            proof {
                assert(lv[i as int][j as int] == g@);
                assert(before + lv[i as int].take(j + 1) =~= seen.push(g@));
                seen = seen.push(g@);
            }
        }
        proof {
            assert(lv[i as int].take(len as int) =~= lv[i as int]);
            assert(lv.take(i + 1) =~= lv.take(i as int).push(lv[i as int]));
            lv.take(i as int).lemma_flatten_push(lv[i as int]);
        }
    }
    assert(lv.take(n as int) =~= lv);
    (m, keys)
}

// ---------------------------------------------------------------------------
// Popularity
// ---------------------------------------------------------------------------
/// The views of locations.
pub open spec fn locations_view(s: Seq<Location>) -> Seq<LocationView> {
    s.map_values(|l: Location| l@)
}

/// The locations of the interesting fingerprints of documents `dv` with
/// fingerprint lists `lv`, document after document, each once.
pub open spec fn interesting_of(
    dv: Seq<DocumentView>,
    lv: Seq<Seq<FingerprintView>>,
    all: Seq<FingerprintView>,
) -> Seq<LocationView> {
    dedup(
        Seq::new(
            dv.len(),
            |i: int| lv[i].filter(interesting(all, dv[i])).map_values(|f: FingerprintView| f.1),
        ).flatten(),
    )
}

/// The views of strings.
pub open spec fn strings_view(s: Seq<String>) -> Seq<Seq<char>> {
    s.map_values(|x: String| x@)
}

/// Adds `x` to a list of distinct strings kept in order of first appearance.
fn push_distinct_string(v: &mut Vec<String>, x: &String, Ghost(seen): Ghost<Seq<Seq<char>>>)
    requires
        strings_view(old(v)@) == dedup(seen),
    ensures
        strings_view(final(v)@) == dedup(seen.push(x@)),
{
    proof {
        lemma_dedup(seen);
        assert(seen.push(x@).drop_last() =~= seen);
        assert(seen.push(x@).last() == x@);
    }
    let ghost sv = strings_view(v@);
    let n = v.len();
    for j in 0..n
        invariant
            n == v@.len(),
            sv == strings_view(v@),
            sv == dedup(seen),
            dedup(seen.push(x@)) == (if sv.contains(x@) {
                sv
            } else {
                sv.push(x@)
            }),
            forall|q: int| 0 <= q < j ==> sv[q] != x@,
    {
        if v[j] == *x {
            assert(sv[j as int] == x@);
            assert(sv.contains(x@));
            return;
        }
    }
    assert(!sv.contains(x@));
    v.push(x.clone());
    assert(strings_view(v@) =~= sv.push(x@));
}

/// The popularity of hash `h` seen from repository `repo`.
fn popularity_of(
    m: &HashMap<u64, Vec<Fingerprint>>,
    repo: &String,
    h: u64,
    Ghost(keys): Ghost<Seq<u64>>,
    Ghost(all): Ghost<Seq<FingerprintView>>,
) -> (r: usize)
    requires
        index_exact(m@, keys, all),
    ensures
        r == popularity(all, repo@, h),
{
    match m.get(&h) {
        Some(bucket) => {
            let ghost bv = fingerprints_view(bucket@);
            assert(bv == index_of(all, h));
            let mut repos: Vec<String> = Vec::new();
            let ghost mut seen: Seq<Seq<char>> = Seq::empty();
            assert(dedup(seen) =~= strings_view(repos@));
            let n = bucket.len();
            for i in 0..n
                invariant
                    n == bucket@.len(),
                    bv == fingerprints_view(bucket@),
                    seen == bv.take(i as int).filter(other_repo(repo@)).map_values(
                        |g: FingerprintView| g.1.0,
                    ),
                    strings_view(repos@) == dedup(seen),
            {
                let g = &bucket[i];
                assert(bv[i as int] == g@);
                proof {
                    lemma_filter_push(bv.take(i as int), g@, other_repo(repo@));
                    assert(bv.take(i + 1) =~= bv.take(i as int).push(g@));
                }
                if !(g.location.repo == *repo) {
                    push_distinct_string(&mut repos, &g.location.repo, Ghost(seen));
                    proof {
                        assert(bv.take(i + 1).filter(other_repo(repo@)).map_values(
                            |g: FingerprintView| g.1.0,
                        ) =~= seen.push(g@.1.0));
                        seen = seen.push(g@.1.0);
                    }
                }
            }
            assert(bv.take(n as int) =~= bv);
            assert(repos@.len() == strings_view(repos@).len());
            repos.len()
        },
        None => {
            proof {
                assert forall|q: int| 0 <= q < all.len() implies !has_hash(h)(#[trigger] all[q]) by {
                    assert(hashes_of(all)[q] == all[q].0);
                }
                lemma_filter_none(all, has_hash(h));
                lemma_filter_none(index_of(all, h), other_repo(repo@));
                assert(index_of(all, h).filter(other_repo(repo@)).map_values(
                    |g: FingerprintView| g.1.0,
                ) =~= Seq::<Seq<char>>::empty());
                assert(other_repos(all, repo@, h) =~= Seq::<Seq<char>>::empty());
            }
            0
        },
    }
}

/// Adds `x` to a list of distinct locations kept in order of first
/// appearance.
fn push_distinct(locs: &mut Vec<Location>, x: &Location, Ghost(seen): Ghost<Seq<LocationView>>)
    requires
        locations_view(old(locs)@) == dedup(seen),
    ensures
        locations_view(final(locs)@) == dedup(seen.push(x@)),
{
    proof {
        lemma_dedup(seen);
        assert(seen.push(x@).drop_last() =~= seen);
        assert(seen.push(x@).last() == x@);
    }
    let ghost lv = locations_view(locs@);
    let n = locs.len();
    for j in 0..n
        invariant
            n == locs@.len(),
            lv == locations_view(locs@),
            lv == dedup(seen),
            dedup(seen.push(x@)) == (if lv.contains(x@) {
                lv
            } else {
                lv.push(x@)
            }),
            forall|q: int| 0 <= q < j ==> lv[q] != x@,
    {
        if same_location(&locs[j], x) {
            assert(lv[j as int] == x@);
            assert(lv.contains(x@));
            return;
        }
    }
    assert(!lv.contains(x@));
    locs.push(x.duplicate());
    assert(locations_view(locs@) =~= lv.push(x@));
}

/// The locations of the fingerprints that are found in other repositories,
/// but in fewer than 1000 places, each once.
fn find_interesting(
    docs: &Vec<Document>,
    lists: &Vec<Vec<Fingerprint>>,
    m: &HashMap<u64, Vec<Fingerprint>>,
    Ghost(keys): Ghost<Seq<u64>>,
    Ghost(all): Ghost<Seq<FingerprintView>>,
) -> (r: Vec<Location>)
    requires
        lists@.len() == docs@.len(),
        index_exact(m@, keys, all),
    ensures
        locations_view(r@) == interesting_of(documents_view(docs@), lists_view(lists@), all),
{
    let ghost dv = documents_view(docs@);
    let ghost lv = lists_view(lists@);
    let ghost parts = Seq::new(
        dv.len(),
        |i: int| lv[i].filter(interesting(all, dv[i])).map_values(|f: FingerprintView| f.1),
    );
    let mut locs: Vec<Location> = Vec::new();
    let ghost mut cands: Seq<LocationView> = Seq::empty();
    assert(dedup(cands) =~= Seq::<LocationView>::empty());
    let n = docs.len();
    for i in 0..n
        invariant
            n == docs@.len(),
            n == lists@.len(),
            dv == documents_view(docs@),
            lv == lists_view(lists@),
            index_exact(m@, keys, all),
            parts == Seq::new(
                dv.len(),
                |i: int| lv[i].filter(interesting(all, dv[i])).map_values(|f: FingerprintView| f.1),
            ),
            cands == parts.take(i as int).flatten(),
            locations_view(locs@) == dedup(cands),
    {
        let doc = &docs[i];
        let list = &lists[i];
        let ghost d = dv[i as int];
        let ghost l = lv[i as int];
        assert(d == doc@ && l == fingerprints_view(list@));
        let ghost before = cands;
        let len = list.len();
        for j in 0..len
            invariant
                len == list@.len(),
                d == doc@,
                l == fingerprints_view(list@),
                index_exact(m@, keys, all),
                cands == before + l.take(j as int).filter(interesting(all, d)).map_values(
                    |f: FingerprintView| f.1,
                ),
                locations_view(locs@) == dedup(cands),
        {
            let f = &list[j];
            assert(l[j as int] == f@);
            let pop = popularity_of(m, &doc.repo, f.hash, Ghost(keys), Ghost(all));
            assert(pop == popularity(all, d.0, f@.0));
            proof {
                lemma_filter_push(l.take(j as int), f@, interesting(all, d));
                assert(l.take(j + 1) =~= l.take(j as int).push(f@));
            }
            if 0 < pop && pop < 1000 {
                push_distinct(&mut locs, &f.location, Ghost(cands));
                proof {
                    assert(before + l.take(j + 1).filter(interesting(all, d)).map_values(
                        |f: FingerprintView| f.1,
                    ) =~= cands.push(f@.1));
                    cands = cands.push(f@.1);
                }
            }
        }
        proof {
            assert(l.take(len as int) =~= l);
            assert(parts[i as int] == l.filter(interesting(all, d)).map_values(|f: FingerprintView| f.1));
            assert(parts.take(i + 1) =~= parts.take(i as int).push(parts[i as int]));
            parts.take(i as int).lemma_flatten_push(parts[i as int]);
        }
    }
    assert(parts.take(n as int) =~= parts);
    locs
}

// ---------------------------------------------------------------------------
// Pairs of documents
// ---------------------------------------------------------------------------
/// The predicate "fingerprint `g` lies in document `d2` and outside the
/// repository of `d1`".
pub open spec fn matches_between(d1: DocumentView, d2: DocumentView) -> spec_fn(
    FingerprintView,
) -> bool {
    |g: FingerprintView| d2 == (g.1.0, g.1.1, g.1.2) && g.1.0 != d1.0
}

/// The predicate "fingerprint `f` survives the popularity cutoffs seen from
/// the repositories of both `d1` and `d2`".
pub open spec fn kept(all: Seq<FingerprintView>, d1: DocumentView, d2: DocumentView) -> spec_fn(
    FingerprintView,
) -> bool {
    |f: FingerprintView| interesting_hash(all, d1.0, f.0) && interesting_hash(all, d2.0, f.0)
}

/// The matches of a pair: for each fingerprint of the first document that
/// survives the popularity cutoffs, in order, the indexed fingerprints with
/// its hash that lie in the second document and outside the first
/// document's repository.
pub open spec fn pair_matches(
    all: Seq<FingerprintView>,
    d1: DocumentView,
    d2: DocumentView,
    fps1: Seq<FingerprintView>,
) -> Seq<FingerprintView> {
    fps1.filter(kept(all, d1, d2)).map_values(
        |f: FingerprintView| index_of(all, f.0).filter(matches_between(d1, d2)),
    ).flatten()
}

/// The pair of documents `a` and `b` with its matches.
pub open spec fn pair_view_of(
    all: Seq<FingerprintView>,
    dv: Seq<DocumentView>,
    lv: Seq<Seq<FingerprintView>>,
    a: int,
    b: int,
) -> PairView {
    (a as usize, b as usize, pair_matches(all, dv[a], dv[b], lv[a]))
}

/// The pairs of document `a` with each later document, in order.
pub open spec fn pairs_row(
    all: Seq<FingerprintView>,
    dv: Seq<DocumentView>,
    lv: Seq<Seq<FingerprintView>>,
    a: int,
) -> Seq<PairView> {
    Seq::new((dv.len() - a - 1) as nat, |k: int| pair_view_of(all, dv, lv, a, a + 1 + k))
}

/// Every pair of distinct documents, each once: (0, 1), (0, 2), ..., (1, 2),
/// ..., with its matches.
pub open spec fn candidate_pairs(
    dv: Seq<DocumentView>,
    lv: Seq<Seq<FingerprintView>>,
    all: Seq<FingerprintView>,
) -> Seq<PairView> {
    Seq::new(dv.len(), |a: int| pairs_row(all, dv, lv, a)).flatten()
}

/// Where a pair with `n` matches is put in a list ordered by decreasing
/// number of matches: after every pair with at least as many.
pub open spec fn insert_pos(s: Seq<PairView>, n: nat) -> nat
    decreases s.len(),
{
    if s.len() == 0 || s[0].2.len() < n {
        0
    } else {
        1 + insert_pos(s.drop_first(), n)
    }
}

/// The pairs ordered by decreasing number of matches; pairs with as many
/// matches keep their order (a stable sort).
pub open spec fn sort_by_matches(s: Seq<PairView>) -> Seq<PairView>
    decreases s.len(),
{
    if s.len() == 0 {
        s
    } else {
        let t = sort_by_matches(s.drop_last());
        t.insert(insert_pos(t, s.last().2.len()) as int, s.last())
    }
}

/// The views of pairs.
pub open spec fn pairs_view(s: Seq<DetectorPair>) -> Seq<PairView> {
    s.map_values(|p: DetectorPair| p@)
}

/// A run of `q` pairs with at least `n` matches, ended by one with fewer or by
/// the end, gives the insertion position.
proof fn lemma_insert_pos_is(s: Seq<PairView>, n: nat, q: int)
    requires
        0 <= q <= s.len(),
        forall|k: int| 0 <= k < q ==> (#[trigger] s[k]).2.len() >= n,
        q == s.len() || s[q].2.len() < n,
    ensures
        insert_pos(s, n) == q,
    decreases q,
{
    if q > 0 {
        assert forall|k: int| 0 <= k < q - 1 implies (#[trigger] s.drop_first()[k]).2.len() >= n by {
            assert(s.drop_first()[k] == s[k + 1]);
        }
        assert(s[0].2.len() >= n);
        lemma_insert_pos_is(s.drop_first(), n, q - 1);
    }
}

/// The fingerprints that match between document `d1` (with fingerprints
/// `list1`) and document `d2`, after pruning by popularity.
fn match_pair(
    d1: &Document,
    d2: &Document,
    list1: &Vec<Fingerprint>,
    m: &HashMap<u64, Vec<Fingerprint>>,
    Ghost(keys): Ghost<Seq<u64>>,
    Ghost(all): Ghost<Seq<FingerprintView>>,
) -> (r: Vec<Fingerprint>)
    requires
        index_exact(m@, keys, all),
    ensures
        fingerprints_view(r@) == pair_matches(all, d1@, d2@, fingerprints_view(list1@)),
{
    let ghost l = fingerprints_view(list1@);
    let mut out: Vec<Fingerprint> = Vec::new();
    let n = list1.len();
    for i in 0..n
        invariant
            n == list1@.len(),
            l == fingerprints_view(list1@),
            index_exact(m@, keys, all),
            fingerprints_view(out@) == l.take(i as int).filter(kept(all, d1@, d2@)).map_values(
                |f: FingerprintView| index_of(all, f.0).filter(matches_between(d1@, d2@)),
            ).flatten(),
    {
        let f = &list1[i];
        assert(l[i as int] == f@);
        let ghost fs = l.take(i as int).filter(kept(all, d1@, d2@));
        proof {
            lemma_filter_push(l.take(i as int), f@, kept(all, d1@, d2@));
            assert(l.take(i + 1) =~= l.take(i as int).push(f@));
        }
        let p1 = popularity_of(m, &d1.repo, f.hash, Ghost(keys), Ghost(all));
        let p2 = popularity_of(m, &d2.repo, f.hash, Ghost(keys), Ghost(all));
        if 0 < p1 && p1 < 1000 && 0 < p2 && p2 < 1000 {
            let ghost before = fingerprints_view(out@);
            match m.get(&f.hash) {
                Some(bucket) => {
                    let ghost bv = fingerprints_view(bucket@);
                    assert(bv == index_of(all, f.hash));
                    let len = bucket.len();
                    for j in 0..len
                        invariant
                            len == bucket@.len(),
                            bv == fingerprints_view(bucket@),
                            fingerprints_view(out@) == before + bv.take(j as int).filter(
                                matches_between(d1@, d2@),
                            ),
                    {
                        let g = &bucket[j];
                        assert(bv[j as int] == g@);
                        proof {
                            lemma_filter_push(bv.take(j as int), g@, matches_between(d1@, d2@));
                            assert(bv.take(j + 1) =~= bv.take(j as int).push(g@));
                        }
                        if from_same_doc(d2, g) && !(d1.repo == g.location.repo) {
                            let ghost prev = fingerprints_view(out@);
                            out.push(g.duplicate());
                            assert(fingerprints_view(out@) =~= prev.push(g@));
                        }
                    }
                    assert(bv.take(len as int) =~= bv);
                },
                None => {
                    proof {
                        assert forall|q: int| 0 <= q < all.len() implies !has_hash(f.hash)(
                            #[trigger] all[q],
                        ) by {
                            assert(hashes_of(all)[q] == all[q].0);
                        }
                        lemma_filter_none(all, has_hash(f.hash));
                        assert(index_of(all, f.hash) =~= Seq::<FingerprintView>::empty());
                        lemma_filter_none(
                            Seq::<FingerprintView>::empty(),
                            matches_between(d1@, d2@),
                        );
                        assert(before + index_of(all, f.hash).filter(matches_between(d1@, d2@))
                            =~= before);
                    }
                },
            }
            proof {
                let g = |f: FingerprintView| index_of(all, f.0).filter(matches_between(d1@, d2@));
                assert(fs.push(f@).map_values(g) =~= fs.map_values(g).push(g(f@)));
                fs.map_values(g).lemma_flatten_push(g(f@));
            }
        }
    }
    assert(l.take(n as int) =~= l);
    out
}

/// Compares every pair of distinct documents and orders the pairs by
/// decreasing number of matches.
fn pair_documents(
    docs: &Vec<Document>,
    lists: &Vec<Vec<Fingerprint>>,
    m: &HashMap<u64, Vec<Fingerprint>>,
    Ghost(keys): Ghost<Seq<u64>>,
    Ghost(all): Ghost<Seq<FingerprintView>>,
) -> (r: Vec<DetectorPair>)
    requires
        lists@.len() == docs@.len(),
        index_exact(m@, keys, all),
    ensures
        pairs_view(r@) == sort_by_matches(
            candidate_pairs(documents_view(docs@), lists_view(lists@), all),
        ),
{
    let ghost dv = documents_view(docs@);
    let ghost lv = lists_view(lists@);
    let n = docs.len();
    let ghost rows = Seq::new(dv.len(), |a: int| pairs_row(all, dv, lv, a));
    let mut sorted: Vec<DetectorPair> = Vec::new();
    let ghost mut cands: Seq<PairView> = Seq::empty();
    assert(pairs_view(sorted@) =~= sort_by_matches(cands));
    assert(rows.take(0).flatten() =~= cands);
    for i in 0..n
        invariant
            n == docs@.len(),
            n == lists@.len(),
            dv == documents_view(docs@),
            lv == lists_view(lists@),
            rows == Seq::new(dv.len(), |a: int| pairs_row(all, dv, lv, a)),
            index_exact(m@, keys, all),
            cands == rows.take(i as int).flatten(),
            pairs_view(sorted@) == sort_by_matches(cands),
    {
        let ghost before = cands;
        let ghost row = rows[i as int];
        assert(row == pairs_row(all, dv, lv, i as int));
        assert(before + row.take(0) =~= cands);
        for j in i + 1..n
            invariant
                n == docs@.len(),
                n == lists@.len(),
                i < n,
                dv == documents_view(docs@),
                lv == lists_view(lists@),
                row == pairs_row(all, dv, lv, i as int),
                index_exact(m@, keys, all),
                cands == before + row.take(j - i - 1),
                pairs_view(sorted@) == sort_by_matches(cands),
        {
            let found = match_pair(&docs[i], &docs[j], &lists[i], m, Ghost(keys), Ghost(all));
            assert(dv[i as int] == docs@[i as int]@ && dv[j as int] == docs@[j as int]@);
            assert(lv[i as int] == fingerprints_view(lists@[i as int]@));
            let count = found.len();
            let pair = DetectorPair { a: i, b: j, fingerprints: found };
            let ghost x = pair@;
            assert(x == pair_view_of(all, dv, lv, i as int, j as int));
            assert(row[j - i - 1] == x);
            let ghost sv = pairs_view(sorted@);
            let mut q: usize = 0;
            let len = sorted.len();
            while q < len && sorted[q].fingerprints.len() >= count
                invariant
                    len == sorted@.len(),
                    sv == pairs_view(sorted@),
                    q <= len,
                    forall|k: int| 0 <= k < q ==> (#[trigger] sv[k]).2.len() >= count,
                decreases len - q,
            {
                assert(sv[q as int].2.len() == sorted@[q as int].fingerprints@.len());
                q = q + 1;
            }
            proof {
                if q < len {
                    assert(sv[q as int].2.len() == sorted@[q as int].fingerprints@.len());
                }
                assert(x.2.len() == count);
                lemma_insert_pos_is(sv, count as nat, q as int);
                assert(cands.push(x).drop_last() =~= cands);
            }
            sorted.insert(q, pair);
            assert(pairs_view(sorted@) =~= sv.insert(q as int, x));
            proof {
                assert(before + row.take(j - i) =~= cands.push(x));
                cands = cands.push(x);
            }
        }
        proof {
            assert(row.take(n - i - 1) =~= row);
            assert(rows.take(i + 1) =~= rows.take(i as int).push(row));
            rows.take(i as int).lemma_flatten_push(row);
        }
    }
    assert(rows.take(n as int) =~= rows);
    sorted
}

// ---------------------------------------------------------------------------
// Detection
// ---------------------------------------------------------------------------
/// The entries of the input of detection.
pub open spec fn input_entries(rm: Seq<(String, Vec<Fingerprint>)>) -> Seq<
    (DocumentView, FingerprintView),
> {
    entries(repos_view(rm))
}

/// The compared pairs of the documents of `es`, with their matches, most
/// matches first.
pub open spec fn detected_pairs(es: Seq<(DocumentView, FingerprintView)>) -> Seq<PairView> {
    sort_by_matches(candidate_pairs(documents_of(es), document_lists(es), all_fingerprints(es)))
}

/// Detects similar documents among the fingerprints of several
/// repositories: fingerprints are grouped into documents (repository,
/// commit, file), indexed by hash, and the documents are paired; each pair
/// gets the fingerprints of its first document that are found in its second
/// document and in another repository than the first's.
pub fn run(repo_map: &Vec<(String, Vec<Fingerprint>)>) -> (r: Detection)
    ensures
        documents_view(r.documents@) == documents_of(input_entries(repo_map@)),
        lists_view(r.document_fingerprints@) == document_lists(input_entries(repo_map@)),
        r.index_keys@ == dedup(hashes_of(all_fingerprints(input_entries(repo_map@)))),
        locations_view(r.interesting@) == interesting_locations(input_entries(repo_map@)),
        locations_view(r.interesting@).no_duplicates(),
        pairs_view(r.pairs@) == detected_pairs(input_entries(repo_map@)),
{
    let ghost es = input_entries(repo_map@);
    let es_vec = collect_entries(repo_map);
    let (documents, lists) = group_documents(&es_vec);
    let ghost dv = documents_view(documents@);
    assert(lists_view(lists@) =~= document_lists(es));
    let (index, keys) = build_index(&lists);
    let ghost all = all_fingerprints(es);
    let interesting = find_interesting(&documents, &lists, &index, Ghost(keys@), Ghost(all));
    let pairs = pair_documents(&documents, &lists, &index, Ghost(keys@), Ghost(all));
    proof {
        lemma_interesting_locations_distinct(documents_of(es), document_lists(es), all);
    }
    Detection {
        documents,
        document_fingerprints: lists,
        index_keys: keys,
        interesting,
        pairs,
    }
}

// ---------------------------------------------------------------------------
// Laws
// ---------------------------------------------------------------------------
/// Every input fingerprint belongs to exactly one document: the documents
/// are distinct, every entry's document is among them, and each document's
/// list holds the fingerprints of the entries of that document and no other.
pub proof fn lemma_documents_partition(es: Seq<(DocumentView, FingerprintView)>)
    ensures
        documents_of(es).no_duplicates(),
        forall|k: int| 0 <= k < es.len() ==> documents_of(es).contains(#[trigger] es[k].0),
        forall|i: int|
            0 <= i < documents_of(es).len() ==> (#[trigger] document_lists(es)[i]).len() > 0,
        forall|i: int, k: int|
            0 <= i < documents_of(es).len() && 0 <= k < es.filter(in_document(documents_of(es)[i])).len()
                ==> (#[trigger] es.filter(in_document(documents_of(es)[i]))[k]).0 == documents_of(es)[i],
{
    broadcast use Seq::lemma_filter_pred;

    let keys = es.map_values(|e: (DocumentView, FingerprintView)| e.0);
    lemma_dedup(keys);
    assert forall|k: int| 0 <= k < es.len() implies documents_of(es).contains(#[trigger] es[k].0) by {
        assert(keys[k] == es[k].0);
        assert(keys.contains(es[k].0));
    }
    assert forall|i: int| 0 <= i < documents_of(es).len() implies (
    #[trigger] document_lists(es)[i]).len() > 0 by {
        let d = documents_of(es)[i];
        assert(documents_of(es).contains(d));
        assert(keys.contains(d));
        let k = choose|k: int| 0 <= k < keys.len() && keys[k] == d;
        assert(es[k].0 == d);
        broadcast use Seq::lemma_filter_contains;

        assert(es.filter(in_document(d)).contains(es[k]));
    }
}

/// The keys of the inverted index are distinct and are exactly the hashes
/// that occur among the fingerprints; the index at a key holds fingerprints
/// with that hash only.
pub proof fn lemma_index_keys(all: Seq<FingerprintView>)
    ensures
        dedup(hashes_of(all)).no_duplicates(),
        forall|h: u64| dedup(hashes_of(all)).contains(h) <==> exists|k: int| 0 <= k < all.len() && (#[trigger] all[k]).0 == h,
        forall|h: u64, k: int| 0 <= k < index_of(all, h).len() ==> (#[trigger] index_of(all, h)[k]).0 == h,
{
    broadcast use Seq::lemma_filter_pred;

    lemma_dedup(hashes_of(all));
    assert forall|h: u64| dedup(hashes_of(all)).contains(h) <==> exists|k: int| 0 <= k < all.len() && (#[trigger] all[k]).0 == h by {
        if hashes_of(all).contains(h) {
            let k = choose|k: int| 0 <= k < hashes_of(all).len() && hashes_of(all)[k] == h;
            assert(all[k].0 == h);
        }
        if exists|k: int| 0 <= k < all.len() && (#[trigger] all[k]).0 == h {
            let k = choose|k: int| 0 <= k < all.len() && (#[trigger] all[k]).0 == h;
            assert(hashes_of(all)[k] == h);
        }
    }
}

/// The insertion position splits a list into the pairs with at least `n`
/// matches and the rest.
proof fn lemma_insert_pos_props(s: Seq<PairView>, n: nat)
    ensures
        insert_pos(s, n) <= s.len(),
        forall|k: int| 0 <= k < insert_pos(s, n) ==> (#[trigger] s[k]).2.len() >= n,
        insert_pos(s, n) < s.len() ==> s[insert_pos(s, n) as int].2.len() < n,
    decreases s.len(),
{
    if s.len() > 0 && s[0].2.len() >= n {
        lemma_insert_pos_props(s.drop_first(), n);
        assert forall|k: int| 0 <= k < insert_pos(s, n) implies (#[trigger] s[k]).2.len() >= n by {
            if k > 0 {
                assert(s[k] == s.drop_first()[k - 1]);
            }
        }
    }
}

/// Pairs are ranked by size: `sort_by_matches` orders pairs by decreasing
/// number of matches and only reorders them (same pairs, as often).
pub proof fn lemma_sort_by_matches(s: Seq<PairView>)
    ensures
        forall|i: int, j: int|
            0 <= i < j < sort_by_matches(s).len() ==> (#[trigger] sort_by_matches(s)[i]).2.len()
                >= (#[trigger] sort_by_matches(s)[j]).2.len(),
        sort_by_matches(s).to_multiset() == s.to_multiset(),
    decreases s.len(),
{
    broadcast use Seq::to_multiset_ensures, vstd::multiset::group_multiset_axioms;

    if s.len() > 0 {
        let t = sort_by_matches(s.drop_last());
        let x = s.last();
        lemma_sort_by_matches(s.drop_last());
        let p = insert_pos(t, x.2.len());
        lemma_insert_pos_props(t, x.2.len());
        let r = t.insert(p as int, x);
        assert(r.len() == t.len() + 1);
        assert forall|i: int, j: int| 0 <= i < j < r.len() implies (#[trigger] r[i]).2.len() >= (
        #[trigger] r[j]).2.len() by {
            if j < p {
                assert(r[i] == t[i] && r[j] == t[j]);
            } else if j == p {
                assert(r[i] == t[i]);
            } else if i < p {
                assert(r[i] == t[i] && r[j] == t[j - 1]);
                assert(t[i].2.len() >= t[j - 1].2.len());
            } else if i == p {
                assert(r[j] == t[j - 1]);
                assert(t[p as int].2.len() >= t[j - 1].2.len() || j - 1 == p);
            } else {
                assert(r[i] == t[i - 1] && r[j] == t[j - 1]);
            }
        }
        assert(r.remove(p as int) =~= t);
        assert(r[p as int] == x);
        r.to_multiset_ensures();
        s.drop_last().to_multiset_ensures();
        assert(r.to_multiset() =~= t.to_multiset().insert(x)) by {
            assert(r.remove(p as int).to_multiset() =~= r.to_multiset().remove(x));
            assert(r.contains(x));
            assert(r.to_multiset().count(x) > 0);
        }
        assert(s =~= s.drop_last().push(x));
        assert(s.to_multiset() =~= s.drop_last().to_multiset().insert(x));
    }
}

/// Whether the pair of documents `a` and `b` occurs in `s`.
pub open spec fn has_pair(s: Seq<PairView>, a: int, b: int) -> bool {
    exists|k: int| 0 <= k < s.len() && (#[trigger] s[k]).0 == a && s[k].1 == b
}

/// Lexicographic order on pairs of positions.
pub open spec fn pair_before(p: PairView, q: PairView) -> bool {
    p.0 < q.0 || (p.0 == q.0 && p.1 < q.1)
}

/// The pairs of the first `m` rows: pairs of a document before `m` with a
/// later one, in lexicographic order, each with its matches; every such pair
/// occurs.
proof fn lemma_rows_prefix(
    dv: Seq<DocumentView>,
    lv: Seq<Seq<FingerprintView>>,
    all: Seq<FingerprintView>,
    m: int,
)
    requires
        dv.len() <= usize::MAX,
        0 <= m <= dv.len(),
    ensures
        ({
            let f = Seq::new(dv.len(), |a: int| pairs_row(all, dv, lv, a)).take(m).flatten();
            &&& forall|k: int|
                0 <= k < f.len() ==> {
                    let p = #[trigger] f[k];
                    &&& p.0 < m
                    &&& p.0 < p.1 < dv.len()
                    &&& p == pair_view_of(all, dv, lv, p.0 as int, p.1 as int)
                }
            &&& forall|k1: int, k2: int|
                0 <= k1 < k2 < f.len() ==> pair_before(#[trigger] f[k1], #[trigger] f[k2])
            &&& forall|a: int, b: int|
                0 <= a < m && a < b < dv.len() ==> #[trigger] has_pair(f, a, b)
        }),
    decreases m,
{
    let rows = Seq::new(dv.len(), |a: int| pairs_row(all, dv, lv, a));
    let f = rows.take(m).flatten();
    if m == 0 {
        assert(rows.take(0) =~= Seq::<Seq<PairView>>::empty());
        assert(f =~= Seq::<PairView>::empty());
    } else {
        lemma_rows_prefix(dv, lv, all, m - 1);
        let g = rows.take(m - 1).flatten();
        let r = rows[m - 1];
        assert(rows.take(m) =~= rows.take(m - 1).push(r));
        rows.take(m - 1).lemma_flatten_push(r);
        assert(f =~= g + r);
        assert(r == pairs_row(all, dv, lv, m - 1));
        assert forall|k: int| 0 <= k < f.len() implies {
            let p = #[trigger] f[k];
            &&& p.0 < m
            &&& p.0 < p.1 < dv.len()
            &&& p == pair_view_of(all, dv, lv, p.0 as int, p.1 as int)
        } by {
            if k < g.len() {
                assert(f[k] == g[k]);
            } else {
                assert(f[k] == r[k - g.len()]);
            }
        }
        assert forall|k1: int, k2: int| 0 <= k1 < k2 < f.len() implies pair_before(
            #[trigger] f[k1],
            #[trigger] f[k2],
        ) by {
            if k2 < g.len() {
                assert(f[k1] == g[k1] && f[k2] == g[k2]);
            } else if k1 < g.len() {
                assert(f[k1] == g[k1] && f[k2] == r[k2 - g.len()]);
            } else {
                assert(f[k1] == r[k1 - g.len()] && f[k2] == r[k2 - g.len()]);
            }
        }
        assert forall|a: int, b: int| 0 <= a < m && a < b < dv.len() implies #[trigger] has_pair(
            f,
            a,
            b,
        ) by {
            if a < m - 1 {
                assert(has_pair(g, a, b));
                let k = choose|k: int| 0 <= k < g.len() && (#[trigger] g[k]).0 == a && g[k].1 == b;
                assert(f[k] == g[k]);
            } else {
                let k = g.len() + (b - a - 1);
                assert(f[k] == r[b - a - 1]);
            }
        }
    }
}

/// Every pair of distinct documents is compared exactly once: the candidate
/// pairs are the pairs (a, b) with a < b, in lexicographic order (so none
/// repeats), each with its matches, and every such pair is among them.
pub proof fn lemma_candidate_pairs(
    dv: Seq<DocumentView>,
    lv: Seq<Seq<FingerprintView>>,
    all: Seq<FingerprintView>,
)
    requires
        dv.len() <= usize::MAX,
    ensures
        forall|k: int|
            0 <= k < candidate_pairs(dv, lv, all).len() ==> {
                let p = #[trigger] candidate_pairs(dv, lv, all)[k];
                &&& p.0 < p.1 < dv.len()
                &&& p == pair_view_of(all, dv, lv, p.0 as int, p.1 as int)
            },
        forall|k1: int, k2: int|
            0 <= k1 < k2 < candidate_pairs(dv, lv, all).len() ==> pair_before(
                #[trigger] candidate_pairs(dv, lv, all)[k1],
                #[trigger] candidate_pairs(dv, lv, all)[k2],
            ),
        forall|a: int, b: int|
            0 <= a < b < dv.len() ==> #[trigger] has_pair(candidate_pairs(dv, lv, all), a, b),
{
    lemma_rows_prefix(dv, lv, all, dv.len() as int);
    let rows = Seq::new(dv.len(), |a: int| pairs_row(all, dv, lv, a));
    assert(rows.take(dv.len() as int) =~= rows);
}

/// The matches of a pair lie in the pair's second document, outside the
/// repository of its first document, and each has the hash of a fingerprint
/// of the first document that survives the popularity cutoffs seen from both
/// documents' repositories: popular fingerprints are pruned before documents
/// are compared.
pub proof fn lemma_pair_matches_sound(
    all: Seq<FingerprintView>,
    d1: DocumentView,
    d2: DocumentView,
    fps1: Seq<FingerprintView>,
)
    ensures
        forall|k: int|
            0 <= k < pair_matches(all, d1, d2, fps1).len() ==> {
                let g = #[trigger] pair_matches(all, d1, d2, fps1)[k];
                &&& d2 == (g.1.0, g.1.1, g.1.2)
                &&& g.1.0 != d1.0
                &&& interesting_hash(all, d1.0, g.0)
                &&& interesting_hash(all, d2.0, g.0)
                &&& exists|i: int| 0 <= i < fps1.len() && fps1[i].0 == g.0
            },
    decreases fps1.len(),
{
    broadcast use Seq::lemma_filter_pred;

    let gf = |f: FingerprintView| index_of(all, f.0).filter(matches_between(d1, d2));
    if fps1.len() > 0 {
        let rest = fps1.drop_last();
        lemma_pair_matches_sound(all, d1, d2, rest);
        let f = fps1.last();
        assert(rest.push(f) =~= fps1);
        lemma_filter_push(rest, f, kept(all, d1, d2));
        let fr = rest.filter(kept(all, d1, d2));
        let pm = pair_matches(all, d1, d2, fps1);
        let pr = pair_matches(all, d1, d2, rest);
        if kept(all, d1, d2)(f) {
            let part = gf(f);
            assert(fr.push(f).map_values(gf) =~= fr.map_values(gf).push(part));
            fr.map_values(gf).lemma_flatten_push(part);
            assert(pm =~= pr + part);
            assert forall|k: int| 0 <= k < pm.len() implies {
                let g = #[trigger] pm[k];
                &&& d2 == (g.1.0, g.1.1, g.1.2)
                &&& g.1.0 != d1.0
                &&& interesting_hash(all, d1.0, g.0)
                &&& interesting_hash(all, d2.0, g.0)
                &&& exists|i: int| 0 <= i < fps1.len() && fps1[i].0 == g.0
            } by {
                if k < pr.len() {
                    assert(pm[k] == pr[k]);
                    let i = choose|i: int| 0 <= i < rest.len() && rest[i].0 == pr[k].0;
                    assert(fps1[i] == rest[i]);
                } else {
                    let x = pm[k];
                    assert(x == part[k - pr.len()]);
                    assert(matches_between(d1, d2)(x));
                    assert(part.contains(x));
                    assert(index_of(all, f.0).contains(x)) by {
                        broadcast use Seq::lemma_filter_contains_rev;
                    }
                    let j = choose|j: int| 0 <= j < index_of(all, f.0).len() && index_of(all, f.0)[j] == x;
                    assert(has_hash(f.0)(index_of(all, f.0)[j]));
                    assert(fps1[fps1.len() - 1] == f);
                }
            }
        } else {
            assert(pm == pr);
            assert forall|k: int| 0 <= k < pm.len() implies {
                let g = #[trigger] pm[k];
                &&& d2 == (g.1.0, g.1.1, g.1.2)
                &&& g.1.0 != d1.0
                &&& interesting_hash(all, d1.0, g.0)
                &&& interesting_hash(all, d2.0, g.0)
                &&& exists|i: int| 0 <= i < fps1.len() && fps1[i].0 == g.0
            } by {
                assert(pm[k] == pr[k]);
                let i = choose|i: int| 0 <= i < rest.len() && rest[i].0 == pr[k].0;
                assert(fps1[i] == rest[i]);
            }
        }
    } else {
        assert(fps1.filter(kept(all, d1, d2)).len() == 0) by {
            broadcast use Seq::lemma_filter_len;
        }
        assert(fps1.filter(kept(all, d1, d2)).map_values(gf) =~= Seq::<Seq<FingerprintView>>::empty());
    }
}

/// The matches of a pair are complete: every indexed fingerprint that lies
/// in the second document and outside the first document's repository, and
/// has the hash of a fingerprint of the first document that survives the
/// popularity cutoffs seen from both repositories, is among the matches,
/// whatever the commits of the two documents.
pub proof fn lemma_pair_matches_complete(
    all: Seq<FingerprintView>,
    d1: DocumentView,
    d2: DocumentView,
    fps1: Seq<FingerprintView>,
    f: FingerprintView,
    g: FingerprintView,
)
    requires
        fps1.contains(f),
        interesting_hash(all, d1.0, f.0),
        interesting_hash(all, d2.0, f.0),
        all.contains(g),
        g.0 == f.0,
        (g.1.0, g.1.1, g.1.2) == d2,
        g.1.0 != d1.0,
    ensures
        pair_matches(all, d1, d2, fps1).contains(g),
{
    broadcast use Seq::lemma_filter_contains;

    let gf = |x: FingerprintView| index_of(all, x.0).filter(matches_between(d1, d2));
    let i = choose|i: int| 0 <= i < fps1.len() && fps1[i] == f;
    assert(kept(all, d1, d2)(fps1[i]));
    assert(fps1.filter(kept(all, d1, d2)).contains(f));
    let fl = fps1.filter(kept(all, d1, d2));
    let j = choose|j: int| 0 <= j < fl.len() && fl[j] == f;
    let k = choose|k: int| 0 <= k < all.len() && all[k] == g;
    assert(has_hash(f.0)(all[k]));
    assert(index_of(all, f.0).contains(g));
    let ix = index_of(all, f.0);
    let m = choose|m: int| 0 <= m < ix.len() && ix[m] == g;
    assert(matches_between(d1, d2)(ix[m]));
    assert(gf(f).contains(g));
    assert(fl.map_values(gf)[j] == gf(f));
    lemma_flatten_contains(fl.map_values(gf));
}

/// The interesting locations are distinct, and a location is among them
/// exactly when some fingerprint of some document lies there and survives
/// the popularity cutoffs seen from that document's repository.
pub proof fn lemma_interesting_locations_distinct(
    dv: Seq<DocumentView>,
    lv: Seq<Seq<FingerprintView>>,
    all: Seq<FingerprintView>,
)
    requires
        lv.len() == dv.len(),
    ensures
        interesting_of(dv, lv, all).no_duplicates(),
        forall|loc: LocationView|
            interesting_of(dv, lv, all).contains(loc) <==> exists|i: int, k: int|
                0 <= i < dv.len() && 0 <= k < lv[i].len() && (#[trigger] lv[i][k]).1 == loc
                    && interesting_hash(all, dv[i].0, lv[i][k].0),
{
    broadcast use Seq::lemma_filter_contains, Seq::lemma_filter_pred;

    let parts = Seq::new(
        dv.len(),
        |i: int| lv[i].filter(interesting(all, dv[i])).map_values(|f: FingerprintView| f.1),
    );
    assert(interesting_of(dv, lv, all) == dedup(parts.flatten())) by {
        assert(parts =~= Seq::new(
            dv.len(),
            |i: int| lv[i].filter(interesting(all, dv[i])).map_values(|f: FingerprintView| f.1),
        ));
    }
    lemma_dedup(parts.flatten());
    lemma_flatten_contains(parts);
    assert forall|loc: LocationView|
        interesting_of(dv, lv, all).contains(loc) <==> exists|i: int, k: int|
            0 <= i < dv.len() && 0 <= k < lv[i].len() && (#[trigger] lv[i][k]).1 == loc
                && interesting_hash(all, dv[i].0, lv[i][k].0) by {
        if interesting_of(dv, lv, all).contains(loc) {
            assert(parts.flatten().contains(loc));
            assert(exists|i: int| 0 <= i < parts.len() && (#[trigger] parts[i]).contains(loc));
            let i = choose|i: int| 0 <= i < parts.len() && (#[trigger] parts[i]).contains(loc);
            let fl = lv[i].filter(interesting(all, dv[i]));
            assert(parts[i] =~= fl.map_values(|f: FingerprintView| f.1));
            let m = choose|m: int| 0 <= m < parts[i].len() && parts[i][m] == loc;
            assert(fl[m].1 == loc);
            lv[i].lemma_filter_pred(interesting(all, dv[i]), m);
            assert(interesting(all, dv[i])(fl[m]));
            assert(fl.contains(fl[m]));
            assert(lv[i].contains(fl[m])) by {
                broadcast use Seq::lemma_filter_contains_rev;
            }
            let k = choose|k: int| 0 <= k < lv[i].len() && lv[i][k] == fl[m];
            assert(lv[i][k].1 == loc && interesting_hash(all, dv[i].0, lv[i][k].0));
        }
        if exists|i: int, k: int|
            0 <= i < dv.len() && 0 <= k < lv[i].len() && (#[trigger] lv[i][k]).1 == loc
                && interesting_hash(all, dv[i].0, lv[i][k].0) {
            let (i, k) = choose|i: int, k: int|
                0 <= i < dv.len() && 0 <= k < lv[i].len() && (#[trigger] lv[i][k]).1 == loc
                    && interesting_hash(all, dv[i].0, lv[i][k].0);
            let fl = lv[i].filter(interesting(all, dv[i]));
            assert(interesting(all, dv[i])(lv[i][k]));
            assert(fl.contains(lv[i][k]));
            let m = choose|m: int| 0 <= m < fl.len() && fl[m] == lv[i][k];
            assert(parts[i] =~= fl.map_values(|f: FingerprintView| f.1));
            assert(parts[i][m] == loc);
            assert(parts[i].contains(loc));
            assert(parts.flatten().contains(loc));
            assert(interesting_of(dv, lv, all).contains(loc));
        }
    }
}

} // verus!
