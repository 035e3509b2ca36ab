//! The inverted index and query evaluation.
//!
//! The index maps each token to the set of ids of the documents whose
//! combined title-and-content stream contains that token. It is kept
//! as an association list in first-seen key order, each posting list
//! in first-inserted order without duplicates, so that building it is
//! deterministic and rebuilding yields a structurally equal index.

use vstd::prelude::*;
use crate::file_entry::{FileEntry, combined};
use crate::text::{count_matches, tokenize, tokenize_text, views_of};

verus! {

/// The mathematical shape of the index: a sequence of
/// (token, posting list) pairs.
pub type IndexModel = Seq<(Seq<char>, Seq<usize>)>;

/// The inverted index: tokens paired with the list of ids of the
/// documents that contain them.
pub struct Indexer {
    pub entries: Vec<(String, Vec<usize>)>,
}

impl View for Indexer {
    type V = IndexModel;

    open spec fn view(&self) -> IndexModel {
        self.entries@.map_values(|e: (String, Vec<usize>)| (e.0@, e.1@))
    }
}

/// The position of token `k` among the keys of `m`, or -1 when `k` is
/// not a key.
pub open spec fn find_key(m: IndexModel, k: Seq<char>) -> int
    decreases m.len(),
{
    if m.len() == 0 {
        -1
    } else if m[0].0 == k {
        0
    } else {
        let r = find_key(m.skip(1), k);
        if r == -1 {
            -1
        } else {
            r + 1
        }
    }
}

pub proof fn lemma_find_key(m: IndexModel, k: Seq<char>)
    ensures
        -1 <= find_key(m, k) < m.len(),
        find_key(m, k) >= 0 ==> m[find_key(m, k)].0 == k,
        find_key(m, k) >= 0 ==> forall|j: int| 0 <= j < find_key(m, k) ==> m[j].0 != k,
        find_key(m, k) == -1 ==> forall|j: int| 0 <= j < m.len() ==> m[j].0 != k,
    decreases m.len(),
{
    if m.len() > 0 && m[0].0 != k {
        lemma_find_key(m.skip(1), k);
        let r = find_key(m.skip(1), k);
        if r == -1 {
            assert forall|j: int| 0 <= j < m.len() implies m[j].0 != k by {
                if j > 0 {
                    assert(m.skip(1)[j - 1] == m[j]);
                }
            }
        } else {
            assert(m.skip(1)[r] == m[r + 1]);
            assert forall|j: int| 0 <= j < r + 1 implies m[j].0 != k by {
                if j > 0 {
                    assert(m.skip(1)[j - 1] == m[j]);
                }
            }
        }
    }
}

/// The posting list of token `k`: the ids recorded under `k`, empty
/// when `k` is not a key.
pub open spec fn postings_of(m: IndexModel, k: Seq<char>) -> Seq<usize> {
    let i = find_key(m, k);
    if i == -1 {
        Seq::empty()
    } else {
        m[i].1
    }
}

/// The document frequency of token `k`: how many documents it occurs in.
pub open spec fn df_of(m: IndexModel, k: Seq<char>) -> nat {
    postings_of(m, k).len()
}

/// Well-formedness of the index: keys are distinct and non-empty, and
/// no posting list holds an id twice.
pub open spec fn ix_wf(m: IndexModel) -> bool {
    &&& forall|i: int, j: int| 0 <= i < j < m.len() ==> m[i].0 != m[j].0
    &&& forall|i: int| 0 <= i < m.len() ==> (#[trigger] m[i]).0.len() > 0
    &&& forall|i: int| 0 <= i < m.len() ==> (#[trigger] m[i]).1.no_duplicates()
}

/// Well-formedness of the document store: ids are dense and contiguous
/// from 0, in ingestion order.
pub open spec fn store_wf(files: Seq<FileEntry>) -> bool {
    forall|i: int| 0 <= i < files.len() ==> (#[trigger] files[i]).id == i
}

/// Soundness of the index against the store: every id recorded under a
/// token belongs to a document whose combined stream contains that
/// token.
pub open spec fn ix_sound(m: IndexModel, files: Seq<FileEntry>) -> bool {
    forall|i: int, id: usize|
        0 <= i < m.len() && (#[trigger] m[i].1.contains(id)) ==> id < files.len() && tokenize(
            combined(files[id as int]),
        ).contains(m[i].0)
}

/// Completeness of the index against the store: every token of every
/// document's combined stream lists that document's id.
pub open spec fn ix_complete(m: IndexModel, files: Seq<FileEntry>) -> bool {
    forall|d: int, t: int|
        0 <= d < files.len() && 0 <= t < tokenize(combined(files[d])).len() ==> postings_of(
            m,
            #[trigger] tokenize(combined(files[d]))[t],
        ).contains(d as usize)
}

/// Records that document `id` contains token `k`: the id is appended
/// to the posting list of `k` unless already present, and a fresh key
/// is appended at the end.
pub open spec fn insert_posting(m: IndexModel, k: Seq<char>, id: usize) -> IndexModel {
    let i = find_key(m, k);
    if i == -1 {
        m.push((k, seq![id]))
    } else if m[i].1.contains(id) {
        m
    } else {
        m.update(i, (m[i].0, m[i].1.push(id)))
    }
}

/// Records, one token after the other, that document `id` contains
/// every token of `toks`.
pub open spec fn add_tokens(m: IndexModel, toks: Seq<Seq<char>>, id: usize) -> IndexModel
    decreases toks.len(),
{
    if toks.len() == 0 {
        m
    } else {
        add_tokens(insert_posting(m, toks[0], id), toks.skip(1), id)
    }
}

/// The index after ingesting document `f`: every token of its combined
/// stream now lists `f.id`.
pub open spec fn add_entry_spec(m: IndexModel, f: FileEntry) -> IndexModel {
    add_tokens(m, tokenize(combined(f)), f.id)
}

/// The index built from the documents of `files`, ingested in id order.
pub open spec fn build_spec(files: Seq<FileEntry>) -> IndexModel
    decreases files.len(),
{
    if files.len() == 0 {
        Seq::empty()
    } else {
        add_entry_spec(build_spec(files.drop_last()), files.last())
    }
}

pub proof fn lemma_add_tokens_snoc(m: IndexModel, toks: Seq<Seq<char>>, tk: Seq<char>, id: usize)
    ensures
        add_tokens(m, toks.push(tk), id) == insert_posting(add_tokens(m, toks, id), tk, id),
    decreases toks.len(),
{
    if toks.len() == 0 {
        assert(add_tokens(m, toks, id) == m);
        assert(toks.push(tk)[0] == tk);
        assert(toks.push(tk).skip(1) =~= Seq::<Seq<char>>::empty());
        assert(add_tokens(insert_posting(m, tk, id), Seq::<Seq<char>>::empty(), id)
            == insert_posting(m, tk, id));
        assert(add_tokens(m, toks.push(tk), id) == add_tokens(
            insert_posting(m, tk, id),
            toks.push(tk).skip(1),
            id,
        ));
    } else {
        assert(toks.push(tk)[0] == toks[0]);
        assert(toks.push(tk).skip(1) =~= toks.skip(1).push(tk));
        lemma_add_tokens_snoc(insert_posting(m, toks[0], id), toks.skip(1), tk, id);
        assert(add_tokens(m, toks.push(tk), id) == add_tokens(
            insert_posting(m, toks[0], id),
            toks.skip(1).push(tk),
            id,
        ));
        assert(add_tokens(m, toks, id) == add_tokens(insert_posting(m, toks[0], id), toks.skip(1), id));
    }
}

/// Two index models whose keys agree on a common prefix, with any
/// extra keys of the second different from `k`, locate `k` at the same
/// position.
proof fn lemma_find_key_eq(m1: IndexModel, m2: IndexModel, k: Seq<char>)
    requires
        m1.len() <= m2.len(),
        forall|j: int| 0 <= j < m1.len() ==> (#[trigger] m2[j]).0 == m1[j].0,
        forall|j: int| m1.len() <= j < m2.len() ==> (#[trigger] m2[j]).0 != k,
    ensures
        find_key(m2, k) == find_key(m1, k),
{
    lemma_find_key(m1, k);
    lemma_find_key(m2, k);
    let a = find_key(m1, k);
    let b = find_key(m2, k);
    if a >= 0 {
        assert(m2[a].0 == k);
        assert(b >= 0);
        assert(b < m1.len());
        assert(m1[b].0 == k);
        assert(a <= b);
        assert(b <= a);
    } else {
        if b >= 0 {
            assert(m2[b].0 == k);
            if b < m1.len() {
                assert(m1[b].0 == k);
            }
            assert(false);
        }
    }
}

/// What one insertion does: `id` is now listed under `k`, every
/// earlier listing is kept, every other key is untouched, a listing
/// already present makes the insertion a no-op, and well-formedness is
/// preserved for a non-empty key.
pub proof fn lemma_insert_posting(m: IndexModel, k: Seq<char>, id: usize)
    ensures
        postings_of(insert_posting(m, k, id), k).contains(id),
        forall|k2: Seq<char>, id0: usize|
            postings_of(m, k2).contains(id0) ==> postings_of(
                insert_posting(m, k, id),
                k2,
            ).contains(id0),
        forall|k2: Seq<char>|
            k2 != k ==> postings_of(insert_posting(m, k, id), k2) == postings_of(m, k2),
        postings_of(m, k).contains(id) ==> insert_posting(m, k, id) == m,
        ix_wf(m) && k.len() > 0 ==> ix_wf(insert_posting(m, k, id)),
{
    lemma_find_key(m, k);
    let i = find_key(m, k);
    let m2 = insert_posting(m, k, id);
    if i == -1 {
        let n = m.len() as int;
        assert(m2 == m.push((k, seq![id])));
        assert(m2[n].0 == k);
        assert(forall|j: int| 0 <= j < n ==> m2[j] == m[j]);
        lemma_find_key(m2, k);
        let b = find_key(m2, k);
        assert(b >= 0);
        assert(b == n);
        assert(postings_of(m2, k) == seq![id]);
        assert(postings_of(m2, k)[0] == id);
        assert forall|k2: Seq<char>| k2 != k implies postings_of(m2, k2) == postings_of(m, k2) by {
            lemma_find_key_eq(m, m2, k2);
            lemma_find_key(m, k2);
        }
        assert(postings_of(m, k).len() == 0);
        if ix_wf(m) && k.len() > 0 {
            assert forall|i0: int, j0: int| 0 <= i0 < j0 < m2.len() implies (#[trigger] m2[i0]).0
                != (#[trigger] m2[j0]).0 by {
                if j0 < n {
                    assert(m2[i0] == m[i0] && m2[j0] == m[j0]);
                } else {
                    assert(m[i0].0 != k);
                }
            }
            assert(seq![id].no_duplicates());
            assert(ix_wf(m2));
        }
    } else if m[i].1.contains(id) {
        assert(m2 == m);
    } else {
        assert(m2 == m.update(i, (m[i].0, m[i].1.push(id))));
        assert(m2.len() == m.len());
        assert(forall|j: int| 0 <= j < m.len() ==> (#[trigger] m2[j]).0 == m[j].0);
        lemma_find_key_eq(m, m2, k);
        assert(find_key(m2, k) == i);
        assert(postings_of(m2, k) == m[i].1.push(id));
        assert(m[i].1.push(id)[m[i].1.len() as int] == id);
        assert forall|id0: usize| postings_of(m, k).contains(id0) implies postings_of(
            m2,
            k,
        ).contains(id0) by {
            let j = choose|j: int| 0 <= j < m[i].1.len() && m[i].1[j] == id0;
            assert(m[i].1.push(id)[j] == id0);
        }
        assert forall|k2: Seq<char>| k2 != k implies postings_of(m2, k2) == postings_of(m, k2) by {
            lemma_find_key_eq(m, m2, k2);
            lemma_find_key(m, k2);
            let a = find_key(m, k2);
            if a >= 0 {
                assert(m[a].0 == k2);
                assert(a != i);
                assert(m2[a] == m[a]);
            }
        }
        if ix_wf(m) && k.len() > 0 {
            assert forall|i0: int, j0: int| 0 <= i0 < j0 < m2.len() implies (#[trigger] m2[i0]).0
                != (#[trigger] m2[j0]).0 by {
                assert(m2[i0].0 == m[i0].0 && m2[j0].0 == m[j0].0);
            }
            assert(m[i].1.push(id).no_duplicates()) by {
                let s = m[i].1;
                assert forall|p: int, q: int|
                    0 <= p < q < s.push(id).len() implies s.push(id)[p] != s.push(id)[q] by {
                    if q < s.len() {
                        assert(s.push(id)[p] == s[p] && s.push(id)[q] == s[q]);
                    } else {
                        assert(s.push(id)[p] == s[p]);
                        assert(!s.contains(id));
                        assert(s[p] != id);
                    }
                }
            }
            assert forall|i0: int| 0 <= i0 < m2.len() implies (#[trigger] m2[i0]).1.no_duplicates() by {
                if i0 != i {
                    assert(m2[i0] == m[i0]);
                }
            }
            assert(ix_wf(m2));
        }
    }
}

/// After recording every token of `toks` for document `id`: earlier
/// listings are kept, and `id` is listed under every token of `toks`.
pub proof fn lemma_add_tokens_membership(m: IndexModel, toks: Seq<Seq<char>>, id: usize)
    ensures
        forall|k: Seq<char>, id0: usize|
            postings_of(m, k).contains(id0) ==> postings_of(
                add_tokens(m, toks, id),
                k,
            ).contains(id0),
        forall|j: int|
            0 <= j < toks.len() ==> postings_of(add_tokens(m, toks, id), #[trigger] toks[j]).contains(id),
    decreases toks.len(),
{
    if toks.len() > 0 {
        lemma_insert_posting(m, toks[0], id);
        let m1 = insert_posting(m, toks[0], id);
        lemma_add_tokens_membership(m1, toks.skip(1), id);
        assert forall|j: int|
            0 <= j < toks.len() implies postings_of(add_tokens(m, toks, id), #[trigger] toks[j]).contains(
            id,
        ) by {
            if j > 0 {
                assert(toks.skip(1)[j - 1] == toks[j]);
            }
        }
    }
}

/// Recording tokens whose listings are all already present changes
/// nothing.
pub proof fn lemma_add_tokens_noop(m: IndexModel, toks: Seq<Seq<char>>, id: usize)
    requires
        forall|j: int| 0 <= j < toks.len() ==> postings_of(m, #[trigger] toks[j]).contains(id),
    ensures
        add_tokens(m, toks, id) == m,
    decreases toks.len(),
{
    if toks.len() > 0 {
        lemma_insert_posting(m, toks[0], id);
        assert(insert_posting(m, toks[0], id) == m);
        assert(forall|j: int|
            0 <= j < toks.skip(1).len() ==> #[trigger] toks.skip(1)[j] == toks[j + 1]);
        lemma_add_tokens_noop(m, toks.skip(1), id);
    }
}

/// Recording non-empty tokens preserves well-formedness of the index.
pub proof fn lemma_add_tokens_wf(m: IndexModel, toks: Seq<Seq<char>>, id: usize)
    requires
        ix_wf(m),
        forall|j: int| 0 <= j < toks.len() ==> (#[trigger] toks[j]).len() > 0,
    ensures
        ix_wf(add_tokens(m, toks, id)),
    decreases toks.len(),
{
    if toks.len() > 0 {
        lemma_insert_posting(m, toks[0], id);
        assert(forall|j: int|
            0 <= j < toks.skip(1).len() ==> #[trigger] toks.skip(1)[j] == toks[j + 1]);
        lemma_add_tokens_wf(insert_posting(m, toks[0], id), toks.skip(1), id);
    }
}

/// Recording tokens of a document of the store preserves soundness of
/// the index.
pub proof fn lemma_add_tokens_sound(
    m: IndexModel,
    toks: Seq<Seq<char>>,
    id: usize,
    files: Seq<FileEntry>,
)
    requires
        ix_sound(m, files),
        id < files.len(),
        forall|j: int|
            0 <= j < toks.len() ==> tokenize(combined(files[id as int])).contains(
                #[trigger] toks[j],
            ),
    ensures
        ix_sound(add_tokens(m, toks, id), files),
    decreases toks.len(),
{
    if toks.len() > 0 {
        let k = toks[0];
        let m2 = insert_posting(m, k, id);
        lemma_find_key(m, k);
        let i = find_key(m, k);
        assert(ix_sound(m2, files)) by {
            assert forall|i0: int, id0: usize|
                0 <= i0 < m2.len() && (#[trigger] m2[i0].1.contains(id0)) implies id0
                < files.len() && tokenize(combined(files[id0 as int])).contains(m2[i0].0) by {
                if i == -1 {
                    if i0 < m.len() {
                        assert(m2[i0] == m[i0]);
                        assert(m[i0].1.contains(id0));
                    } else {
                        assert(m2[i0] == (k, seq![id]));
                        let j = choose|j: int| 0 <= j < seq![id].len() && seq![id][j] == id0;
                        assert(id0 == id);
                    }
                } else if m[i].1.contains(id) {
                    assert(m2[i0].1.contains(id0) ==> m[i0].1.contains(id0));
                } else {
                    if i0 != i {
                        assert(m2[i0] == m[i0]);
                        assert(m[i0].1.contains(id0));
                    } else {
                        assert(m2[i0] == (m[i].0, m[i].1.push(id)));
                        let s = m[i].1;
                        let j = choose|j: int| 0 <= j < s.push(id).len() && s.push(id)[j] == id0;
                        if j < s.len() {
                            assert(s[j] == id0);
                            assert(s.contains(id0));
                        } else {
                            assert(id0 == id);
                            assert(m[i].0 == k);
                        }
                    }
                }
            }
        }
        assert(forall|j: int|
            0 <= j < toks.skip(1).len() ==> #[trigger] toks.skip(1)[j] == toks[j + 1]);
        lemma_add_tokens_sound(m2, toks.skip(1), id, files);
    }
}

/// Ingesting the same document a second time leaves the index exactly
/// as one ingestion left it.
pub proof fn lemma_add_entry_idempotent(m: IndexModel, f: FileEntry)
    ensures
        add_entry_spec(add_entry_spec(m, f), f) == add_entry_spec(m, f),
{
    let toks = tokenize(combined(f));
    lemma_add_tokens_membership(m, toks, f.id);
    lemma_add_tokens_noop(add_tokens(m, toks, f.id), toks, f.id);
}

/// The index built from a well-formed store is well-formed, sound and
/// complete: a token lists an id exactly when the document with that
/// id contains the token.
pub proof fn lemma_build_props(files: Seq<FileEntry>)
    requires
        store_wf(files),
    ensures
        ix_wf(build_spec(files)),
        ix_sound(build_spec(files), files),
        ix_complete(build_spec(files), files),
    decreases files.len(),
{
    if files.len() > 0 {
        let fs0 = files.drop_last();
        let f = files.last();
        let n = files.len() as int;
        assert(forall|i: int| 0 <= i < fs0.len() ==> fs0[i] == files[i]);
        lemma_build_props(fs0);
        let m0 = build_spec(fs0);
        let toks = tokenize(combined(f));
        crate::text::lemma_tokens_nonempty(combined(f), Seq::empty());
        lemma_add_tokens_wf(m0, toks, f.id);
        assert(ix_sound(m0, files)) by {
            assert forall|i0: int, id0: usize|
                0 <= i0 < m0.len() && (#[trigger] m0[i0].1.contains(id0)) implies id0
                < files.len() && tokenize(combined(files[id0 as int])).contains(m0[i0].0) by {
                assert(id0 < fs0.len());
                assert(files[id0 as int] == fs0[id0 as int]);
            }
        }
        assert(f.id == n - 1);
        assert(files[f.id as int] == f);
        assert(forall|j: int| 0 <= j < toks.len() ==> toks.contains(#[trigger] toks[j]));
        lemma_add_tokens_sound(m0, toks, f.id, files);
        lemma_add_tokens_membership(m0, toks, f.id);
        assert(build_spec(files) == add_tokens(m0, toks, f.id));
        assert forall|d: int, t: int|
            0 <= d < files.len() && 0 <= t < tokenize(combined(files[d])).len() implies postings_of(
            build_spec(files),
            #[trigger] tokenize(combined(files[d]))[t],
        ).contains(d as usize) by {
            if d < n - 1 {
                assert(files[d] == fs0[d]);
                assert(postings_of(m0, tokenize(combined(fs0[d]))[t]).contains(d as usize));
            } else {
                assert(files[d] == f);
                assert(tokenize(combined(files[d]))[t] == toks[t]);
            }
        }
    }
}

/// Looks `tok` up among the keys and records `id` under it, appending
/// a fresh key when `tok` was not present.
fn insert_token(indexer: &mut Indexer, tok: &String, id: usize)
    ensures
        final(indexer)@ == insert_posting(old(indexer)@, tok@, id),
{
    let n = indexer.entries.len();
    let mut ki: usize = 0;
    let mut found: bool = false;
    while ki < n && !found
        invariant
            n == indexer.entries@.len(),
            *indexer == *old(indexer),
            ki <= n,
            !found ==> forall|j: int| 0 <= j < ki ==> indexer@[j].0 != tok@,
            found ==> ki < n && indexer@[ki as int].0 == tok@ && forall|j: int|
                0 <= j < ki ==> indexer@[j].0 != tok@,
        decreases n - ki + (if found { 0int } else { 1int }),
    {
        if indexer.entries[ki].0 == *tok {
            found = true;
        } else {
            ki = ki + 1;
        }
    }
    proof {
        lemma_find_key(indexer@, tok@);
        if found {
            assert(find_key(indexer@, tok@) == ki as int);
        } else {
            assert(find_key(indexer@, tok@) == -1);
        }
    }
    if found {
        let ids_len = indexer.entries[ki].1.len();
        let mut p: usize = 0;
        let mut present: bool = false;
        while p < ids_len && !present
            invariant
                *indexer == *old(indexer),
                ki < indexer.entries@.len(),
                ids_len == indexer@[ki as int].1.len(),
                p <= ids_len,
                !present ==> forall|j: int| 0 <= j < p ==> indexer@[ki as int].1[j] != id,
                present ==> indexer@[ki as int].1.contains(id),
            decreases ids_len - p + (if present { 0int } else { 1int }),
        {
            if indexer.entries[ki].1[p] == id {
                present = true;
            } else {
                p = p + 1;
            }
        }
        if !present {
            proof {
                assert(!indexer@[ki as int].1.contains(id));
            }
            let pair = indexer.entries.remove(ki);
            let (key, mut ids) = pair;
            ids.push(id);
            indexer.entries.insert(ki, (key, ids));
            proof {
                let oldm = old(indexer)@;
                assert(indexer@ =~= oldm.update(
                    ki as int,
                    (oldm[ki as int].0, oldm[ki as int].1.push(id)),
                ));
            }
        }
    } else {
        let key = tok.clone();
        let mut ids: Vec<usize> = Vec::new();
        ids.push(id);
        indexer.entries.push((key, ids));
        proof {
            assert(ids@ =~= seq![id]);
            assert(indexer@ =~= old(indexer)@.push((tok@, seq![id])));
        }
    }
}

/// Ingests one document: tokenizes its combined title-and-content
/// stream and records the document's id under every token.
pub fn add_entry(file: &FileEntry, indexer: &mut Indexer)
    ensures
        final(indexer)@ == add_entry_spec(old(indexer)@, *file),
{
    let combined_doc = file.combined_text();
    let toks = tokenize_text(combined_doc.as_str());
    let mut t: usize = 0;
    proof {
        assert(views_of(toks@).take(0) =~= Seq::<Seq<char>>::empty());
    }
    while t < toks.len()
        invariant
            t <= toks@.len(),
            views_of(toks@) == tokenize(combined(*file)),
            indexer@ == add_tokens(old(indexer)@, views_of(toks@).take(t as int), file.id),
        decreases toks@.len() - t,
    {
        proof {
            assert(views_of(toks@)[t as int] == toks@[t as int]@);
            assert(views_of(toks@).take(t as int + 1) =~= views_of(toks@).take(t as int).push(
                toks@[t as int]@,
            ));
            lemma_add_tokens_snoc(
                old(indexer)@,
                views_of(toks@).take(t as int),
                toks@[t as int]@,
                file.id,
            );
        }
        insert_token(indexer, &toks[t], file.id);
        t = t + 1;
    }
    proof {
        assert(views_of(toks@).take(toks@.len() as int) =~= views_of(toks@));
    }
}

/// Builds the inverted index by ingesting every document of the store
/// in id order. For a well-formed store the result is well-formed,
/// sound and complete.
pub fn generate_indexer(files: &Vec<FileEntry>) -> (indexer: Indexer)
    ensures
        indexer@ == build_spec(files@),
        store_wf(files@) ==> ix_wf(indexer@) && ix_sound(indexer@, files@) && ix_complete(
            indexer@,
            files@,
        ),
{
    let mut indexer = Indexer { entries: Vec::new() };
    proof {
        assert(files@.take(0) =~= Seq::<FileEntry>::empty());
        assert(indexer@ =~= build_spec(files@.take(0)));
    }
    let mut i: usize = 0;
    while i < files.len()
        invariant
            i <= files@.len(),
            indexer@ == build_spec(files@.take(i as int)),
        decreases files@.len() - i,
    {
        add_entry(&files[i], &mut indexer);
        proof {
            assert(files@.take(i as int + 1).drop_last() =~= files@.take(i as int));
            assert(files@.take(i as int + 1).last() == files@[i as int]);
        }
        i = i + 1;
    }
    proof {
        assert(files@.take(files@.len() as int) =~= files@);
        if store_wf(files@) {
            lemma_build_props(files@);
        }
    }
    indexer
}

/// Finds the entry position of `token` among the index keys.
fn find_entry(indexer: &Indexer, token: &String) -> (r: Option<usize>)
    ensures
        match r {
            Some(ki) => ki < indexer.entries@.len() && find_key(indexer@, token@) == ki as int,
            None => find_key(indexer@, token@) == -1,
        },
{
    let n = indexer.entries.len();
    let mut ki: usize = 0;
    let mut found: bool = false;
    while ki < n && !found
        invariant
            n == indexer.entries@.len(),
            ki <= n,
            !found ==> forall|j: int| 0 <= j < ki ==> indexer@[j].0 != token@,
            found ==> ki < n && indexer@[ki as int].0 == token@ && forall|j: int|
                0 <= j < ki ==> indexer@[j].0 != token@,
        decreases n - ki + (if found { 0int } else { 1int }),
    {
        if indexer.entries[ki].0 == *token {
            found = true;
        } else {
            ki = ki + 1;
        }
    }
    proof {
        lemma_find_key(indexer@, token@);
    }
    if found {
        Some(ki)
    } else {
        None
    }
}

/// The posting list of `token`: the ids of the documents indexed under
/// it, empty when the token is unknown.
pub fn postings(indexer: &Indexer, token: &String) -> (ids: Vec<usize>)
    ensures
        ids@ == postings_of(indexer@, token@),
{
    let mut out: Vec<usize> = Vec::new();
    match find_entry(indexer, token) {
        Some(ki) => {
            let len = indexer.entries[ki].1.len();
            let mut p: usize = 0;
            while p < len
                invariant
                    ki < indexer.entries@.len(),
                    len == indexer@[ki as int].1.len(),
                    p <= len,
                    out@ == indexer@[ki as int].1.take(p as int),
                decreases len - p,
            {
                let id = indexer.entries[ki].1[p];
                proof {
                    assert(indexer@[ki as int].1.take(p as int + 1) =~= indexer@[ki as int].1.take(
                        p as int,
                    ).push(indexer@[ki as int].1[p as int]));
                }
                out.push(id);
                p = p + 1;
            }
            proof {
                assert(indexer@[ki as int].1.take(len as int) =~= indexer@[ki as int].1);
            }
            out
        },
        None => {
            proof {
                assert(out@ =~= postings_of(indexer@, token@));
            }
            out
        },
    }
}

/// The document frequency of `token`: the size of its posting list,
/// zero when the token is unknown.
pub fn document_frequency(indexer: &Indexer, token: &String) -> (df: usize)
    ensures
        df as nat == df_of(indexer@, token@),
{
    match find_entry(indexer, token) {
        Some(ki) => indexer.entries[ki].1.len(),
        None => 0,
    }
}

/// The exact ingredients of one matched term's TF-IDF contribution to
/// a document: the term frequency and the document frequency. The
/// real-valued contribution over a store of `n` documents is
/// `tf * log10(n / df)`.
pub open spec fn contrib_of(files: Seq<FileEntry>, m: IndexModel, t: Seq<char>, id: usize) -> (
    nat,
    nat,
) {
    (count_matches(combined(files[id as int]), t), df_of(m, t))
}

/// The contribution pairs a query gives document `id`, in term order:
/// one pair for every term occurrence whose posting list holds `id`.
pub open spec fn doc_contribs(
    files: Seq<FileEntry>,
    m: IndexModel,
    terms: Seq<Seq<char>>,
    id: usize,
) -> Seq<(nat, nat)>
    decreases terms.len(),
{
    if terms.len() == 0 {
        Seq::empty()
    } else {
        let head: Seq<(nat, nat)> = if postings_of(m, terms[0]).contains(id) {
            seq![contrib_of(files, m, terms[0], id)]
        } else {
            Seq::empty()
        };
        head + doc_contribs(files, m, terms.skip(1), id)
    }
}

/// Whether any query term's posting list holds `id`: exactly the
/// documents a query ranks.
pub open spec fn touched(m: IndexModel, terms: Seq<Seq<char>>, id: usize) -> bool {
    exists|k: int| 0 <= k < terms.len() && postings_of(m, #[trigger] terms[k]).contains(id)
}

/// The mathematical pairs of an executable contribution list.
pub open spec fn contribs_view(s: Seq<(usize, usize)>) -> Seq<(nat, nat)> {
    s.map_values(|p: (usize, usize)| (p.0 as nat, p.1 as nat))
}

proof fn lemma_push_contains<A>(s: Seq<A>, x: A, y: A)
    ensures
        s.push(x).contains(y) == (s.contains(y) || y == x),
{
    if s.push(x).contains(y) {
        let j = choose|j: int| 0 <= j < s.push(x).len() && s.push(x)[j] == y;
        if j < s.len() {
            assert(s[j] == y);
        }
    }
    if s.contains(y) {
        let j = choose|j: int| 0 <= j < s.len() && s[j] == y;
        assert(s.push(x)[j] == y);
    }
    assert(s.push(x)[s.len() as int] == x);
}

/// Appending one term appends at most one contribution pair: exactly
/// one when the term's posting list holds `id`, none otherwise.
pub proof fn lemma_doc_contribs_snoc(
    files: Seq<FileEntry>,
    m: IndexModel,
    terms: Seq<Seq<char>>,
    t: Seq<char>,
    id: usize,
)
    ensures
        doc_contribs(files, m, terms.push(t), id) == doc_contribs(files, m, terms, id) + (
        if postings_of(m, t).contains(id) {
            seq![contrib_of(files, m, t, id)]
        } else {
            Seq::<(nat, nat)>::empty()
        }),
    decreases terms.len(),
{
    let tail: Seq<(nat, nat)> = if postings_of(m, t).contains(id) {
        seq![contrib_of(files, m, t, id)]
    } else {
        Seq::empty()
    };
    if terms.len() == 0 {
        assert(terms.push(t)[0] == t);
        assert(terms.push(t).skip(1) =~= Seq::<Seq<char>>::empty());
        assert(doc_contribs(files, m, terms.push(t).skip(1), id) == Seq::<(nat, nat)>::empty());
        assert(doc_contribs(files, m, terms.push(t), id) =~= tail);
        assert(doc_contribs(files, m, terms, id) + tail =~= tail);
    } else {
        let head: Seq<(nat, nat)> = if postings_of(m, terms[0]).contains(id) {
            seq![contrib_of(files, m, terms[0], id)]
        } else {
            Seq::empty()
        };
        assert(terms.push(t)[0] == terms[0]);
        assert(terms.push(t).skip(1) =~= terms.skip(1).push(t));
        lemma_doc_contribs_snoc(files, m, terms.skip(1), t, id);
        assert(doc_contribs(files, m, terms.push(t), id) == head + (doc_contribs(
            files,
            m,
            terms.skip(1),
            id,
        ) + tail));
        assert(head + (doc_contribs(files, m, terms.skip(1), id) + tail) =~= (head + doc_contribs(
            files,
            m,
            terms.skip(1),
            id,
        )) + tail);
    }
}

/// Appending one term touches a document exactly when it was touched
/// before or the new term's posting list holds it.
pub proof fn lemma_touched_snoc(m: IndexModel, terms: Seq<Seq<char>>, t: Seq<char>, id: usize)
    ensures
        touched(m, terms.push(t), id) == (touched(m, terms, id) || postings_of(m, t).contains(id)),
{
    if touched(m, terms.push(t), id) {
        let k = choose|k: int|
            0 <= k < terms.push(t).len() && postings_of(m, #[trigger] terms.push(t)[k]).contains(
                id,
            );
        if k < terms.len() {
            assert(terms.push(t)[k] == terms[k]);
            assert(touched(m, terms, id));
        } else {
            assert(terms.push(t)[k] == t);
        }
    }
    if touched(m, terms, id) {
        let k = choose|k: int|
            0 <= k < terms.len() && postings_of(m, #[trigger] terms[k]).contains(id);
        assert(terms.push(t)[k] == terms[k]);
        assert(touched(m, terms.push(t), id));
    }
    if postings_of(m, t).contains(id) {
        assert(terms.push(t)[terms.len() as int] == t);
        assert(touched(m, terms.push(t), id));
    }
}

/// Evaluates a query against the store and the index: walks each
/// term's posting list in term order, gathers every matched document's
/// exact contribution pairs, and returns one hit per touched document
/// in ascending id order. A hit's real-valued TF-IDF score over a
/// store of `n` documents is the sum of `tf * log10(n / df)` over its
/// pairs. Unknown terms are skipped and an empty query returns no hits.
pub fn query(files: &Vec<FileEntry>, indexer: &Indexer, terms: &Vec<String>) -> (r: Vec<
    (usize, Vec<(usize, usize)>),
>)
    requires
        ix_wf(indexer@),
        ix_sound(indexer@, files@),
    ensures
        forall|j: int|
            0 <= j < r@.len() ==> (#[trigger] r@[j]).0 < files@.len() && touched(
                indexer@,
                views_of(terms@),
                r@[j].0,
            ) && contribs_view(r@[j].1@) == doc_contribs(
                files@,
                indexer@,
                views_of(terms@),
                r@[j].0,
            ),
        forall|j1: int, j2: int| 0 <= j1 < j2 < r@.len() ==> r@[j1].0 < r@[j2].0,
        forall|id: usize|
            id < files@.len() && touched(indexer@, views_of(terms@), id) ==> exists|j: int|
                0 <= j < r@.len() && (#[trigger] r@[j]).0 == id,
        terms@.len() == 0 ==> r@.len() == 0,
        (forall|k: int| 0 <= k < terms@.len() ==> df_of(indexer@, #[trigger] terms@[k]@) == 0)
            ==> r@.len() == 0,
{
    let ghost m = indexer@;
    let ghost tv = views_of(terms@);
    let n = files.len();
    let mut rows: Vec<Vec<(usize, usize)>> = Vec::new();
    let mut flags: Vec<bool> = Vec::new();
    let mut q: usize = 0;
    while q < n
        invariant
            q <= n,
            rows@.len() == q,
            flags@.len() == q,
            forall|d: int| 0 <= d < q ==> (#[trigger] rows@[d])@.len() == 0,
            forall|d: int| 0 <= d < q ==> (#[trigger] flags@[d]) == false,
        decreases n - q,
    {
        rows.push(Vec::new());
        flags.push(false);
        q = q + 1;
    }
    proof {
        assert(tv.take(0) =~= Seq::<Seq<char>>::empty());
        assert forall|d: int| 0 <= d < n implies contribs_view((#[trigger] rows@[d])@)
            == doc_contribs(files@, m, tv.take(0), d as usize) by {
            assert(contribs_view(rows@[d]@) =~= Seq::<(nat, nat)>::empty());
        }
        assert forall|d: int| 0 <= d < n implies (#[trigger] flags@[d]) == touched(
            m,
            tv.take(0),
            d as usize,
        ) by {
            assert(!touched(m, tv.take(0), d as usize));
        }
    }
    let mut k: usize = 0;
    while k < terms.len()
        invariant
            k <= terms@.len(),
            n == files@.len(),
            m == indexer@,
            tv == views_of(terms@),
            ix_wf(m),
            ix_sound(m, files@),
            rows@.len() == n,
            flags@.len() == n,
            forall|d: int|
                0 <= d < n ==> contribs_view((#[trigger] rows@[d])@) == doc_contribs(
                    files@,
                    m,
                    tv.take(k as int),
                    d as usize,
                ),
            forall|d: int|
                0 <= d < n ==> (#[trigger] flags@[d]) == touched(m, tv.take(k as int), d as usize),
        decreases terms@.len() - k,
    {
        let tok = &terms[k];
        proof {
            assert(tv[k as int] == terms@[k as int]@);
            assert(tv.take(k as int + 1) =~= tv.take(k as int).push(tv[k as int]));
        }
        match find_entry(indexer, tok) {
            None => {
                proof {
                    assert(postings_of(m, tv[k as int]) == Seq::<usize>::empty());
                    assert forall|d: int| 0 <= d < n implies contribs_view((#[trigger] rows@[d])@)
                        == doc_contribs(files@, m, tv.take(k as int + 1), d as usize) by {
                        lemma_doc_contribs_snoc(files@, m, tv.take(k as int), tv[k as int], d as usize);
                        assert(!postings_of(m, tv[k as int]).contains(d as usize));
                        assert(doc_contribs(files@, m, tv.take(k as int), d as usize) + Seq::<(
                            nat,
                            nat,
                        )>::empty() =~= doc_contribs(files@, m, tv.take(k as int), d as usize));
                    }
                    assert forall|d: int| 0 <= d < n implies (#[trigger] flags@[d]) == touched(
                        m,
                        tv.take(k as int + 1),
                        d as usize,
                    ) by {
                        lemma_touched_snoc(m, tv.take(k as int), tv[k as int], d as usize);
                        assert(!postings_of(m, tv[k as int]).contains(d as usize));
                    }
                }
            },
            Some(ki) => {
                proof {
                    lemma_find_key(m, tok@);
                    assert(m[ki as int].0 == tv[k as int]);
                    assert(postings_of(m, tv[k as int]) == m[ki as int].1);
                }
                let df = indexer.entries[ki].1.len();
                let mut p: usize = 0;
                while p < df
                    invariant
                        n == files@.len(),
                        m == indexer@,
                        tv == views_of(terms@),
                        ix_wf(m),
                        ix_sound(m, files@),
                        k < tv.len(),
                        ki < m.len(),
                        tok@ == tv[k as int],
                        m[ki as int].0 == tv[k as int],
                        postings_of(m, tv[k as int]) == m[ki as int].1,
                        df == m[ki as int].1.len(),
                        p <= df,
                        rows@.len() == n,
                        flags@.len() == n,
                        forall|d: int|
                            0 <= d < n && m[ki as int].1.take(p as int).contains(d as usize)
                                ==> contribs_view((#[trigger] rows@[d])@) == doc_contribs(
                                files@,
                                m,
                                tv.take(k as int + 1),
                                d as usize,
                            ),
                        forall|d: int|
                            0 <= d < n && !m[ki as int].1.take(p as int).contains(d as usize)
                                ==> contribs_view((#[trigger] rows@[d])@) == doc_contribs(
                                files@,
                                m,
                                tv.take(k as int),
                                d as usize,
                            ),
                        forall|d: int|
                            0 <= d < n && m[ki as int].1.take(p as int).contains(d as usize) ==> (
                            #[trigger] flags@[d]) == touched(m, tv.take(k as int + 1), d as usize),
                        forall|d: int|
                            0 <= d < n && !m[ki as int].1.take(p as int).contains(d as usize) ==> (
                            #[trigger] flags@[d]) == touched(m, tv.take(k as int), d as usize),
                    decreases df - p,
                {
                    let id = indexer.entries[ki].1[p];
                    proof {
                        assert(m[ki as int].1[p as int] == id);
                        assert(m[ki as int].1.contains(id));
                        assert(id < files@.len());
                        assert(m[ki as int].0.len() > 0);
                        assert(m[ki as int].1.no_duplicates());
                        assert(!m[ki as int].1.take(p as int).contains(id)) by {
                            if m[ki as int].1.take(p as int).contains(id) {
                                let j = choose|j: int|
                                    0 <= j < p && m[ki as int].1.take(p as int)[j] == id;
                                assert(m[ki as int].1[j] == m[ki as int].1[p as int]);
                            }
                        }
                    }
                    let tf = term_frequency(&files[id], tok);
                    let ghost old_rows = rows@;
                    let ghost old_flags = flags@;
                    rows[id].push((tf, df));
                    flags[id] = true;
                    proof {
                        assert(rows@[id as int]@ == old_rows[id as int]@.push((tf, df)));
                        assert(forall|d: int| 0 <= d < n && d != id ==> rows@[d] == old_rows[d]);
                        assert(flags@ =~= old_flags.update(id as int, true));
                        let done = tv.take(k as int);
                        let cur = tv[k as int];
                        assert(tv.take(k as int + 1) =~= done.push(cur));
                        lemma_doc_contribs_snoc(files@, m, done, cur, id);
                        lemma_touched_snoc(m, done, cur, id);
                        assert(contribs_view(old_rows[id as int]@.push((tf, df)))
                            =~= contribs_view(old_rows[id as int]@).push((tf as nat, df as nat)));
                        assert((tf as nat, df as nat) == contrib_of(files@, m, cur, id));
                        assert(doc_contribs(files@, m, done, id) + seq![contrib_of(files@, m, cur, id)]
                            =~= doc_contribs(files@, m, done, id).push(
                            contrib_of(files@, m, cur, id),
                        ));
                        assert(contribs_view(rows@[id as int]@) == doc_contribs(
                            files@,
                            m,
                            tv.take(k as int + 1),
                            id,
                        ));
                        assert(m[ki as int].1.take(p as int + 1) =~= m[ki as int].1.take(
                            p as int,
                        ).push(id));
                        assert forall|d: int| 0 <= d < n implies (#[trigger] m[ki as int].1.take(
                            p as int + 1,
                        ).contains(d as usize) == (m[ki as int].1.take(p as int).contains(d as usize)
                            || d == id as int)) by {
                            lemma_push_contains(m[ki as int].1.take(p as int), id, d as usize);
                        }
                        assert(flags@[id as int] == true);
                        assert(touched(m, tv.take(k as int + 1), id));
                        assert forall|d: int|
                            0 <= d < n && m[ki as int].1.take(p as int + 1).contains(d as usize)
                                implies contribs_view((#[trigger] rows@[d])@) == doc_contribs(
                            files@,
                            m,
                            tv.take(k as int + 1),
                            d as usize,
                        ) by {
                            if d != id as int {
                                assert(m[ki as int].1.take(p as int).contains(d as usize));
                                assert(rows@[d] == old_rows[d]);
                            }
                        }
                        assert forall|d: int|
                            0 <= d < n && !m[ki as int].1.take(p as int + 1).contains(d as usize)
                                implies contribs_view((#[trigger] rows@[d])@) == doc_contribs(
                            files@,
                            m,
                            tv.take(k as int),
                            d as usize,
                        ) by {
                            assert(d != id as int);
                            assert(!m[ki as int].1.take(p as int).contains(d as usize));
                            assert(rows@[d] == old_rows[d]);
                        }
                        assert forall|d: int|
                            0 <= d < n && m[ki as int].1.take(p as int + 1).contains(d as usize)
                                implies (#[trigger] flags@[d]) == touched(
                            m,
                            tv.take(k as int + 1),
                            d as usize,
                        ) by {
                            if d != id as int {
                                assert(m[ki as int].1.take(p as int).contains(d as usize));
                                assert(flags@[d] == old_flags[d]);
                            }
                        }
                        assert forall|d: int|
                            0 <= d < n && !m[ki as int].1.take(p as int + 1).contains(d as usize)
                                implies (#[trigger] flags@[d]) == touched(
                            m,
                            tv.take(k as int),
                            d as usize,
                        ) by {
                            assert(d != id as int);
                            assert(!m[ki as int].1.take(p as int).contains(d as usize));
                            assert(flags@[d] == old_flags[d]);
                        }
                    }
                    p = p + 1;
                }
                proof {
                    assert(m[ki as int].1.take(df as int) =~= m[ki as int].1);
                    assert(tv.take(k as int + 1) =~= tv.take(k as int).push(tv[k as int]));
                    assert forall|d: int| 0 <= d < n implies (#[trigger] flags@[d]) == touched(
                        m,
                        tv.take(k as int + 1),
                        d as usize,
                    ) by {
                        if !m[ki as int].1.contains(d as usize) {
                            assert(!m[ki as int].1.take(df as int).contains(d as usize));
                            lemma_touched_snoc(m, tv.take(k as int), tv[k as int], d as usize);
                        } else {
                            assert(m[ki as int].1.take(df as int).contains(d as usize));
                        }
                    }
                    assert forall|d: int| 0 <= d < n implies contribs_view((#[trigger] rows@[d])@)
                        == doc_contribs(files@, m, tv.take(k as int + 1), d as usize) by {
                        if !m[ki as int].1.contains(d as usize) {
                            assert(!m[ki as int].1.take(df as int).contains(d as usize));
                            lemma_doc_contribs_snoc(files@, m, tv.take(k as int), tv[k as int], d as usize);
                            lemma_touched_snoc(m, tv.take(k as int), tv[k as int], d as usize);
                            assert(doc_contribs(files@, m, tv.take(k as int), d as usize) + Seq::<(
                                nat,
                                nat,
                            )>::empty() =~= doc_contribs(files@, m, tv.take(k as int), d as usize));
                            assert(contribs_view(rows@[d]@) == doc_contribs(
                                files@,
                                m,
                                tv.take(k as int + 1),
                                d as usize,
                            ));
                        } else {
                            assert(m[ki as int].1.take(df as int).contains(d as usize));
                            assert(contribs_view(rows@[d]@) == doc_contribs(
                                files@,
                                m,
                                tv.take(k as int + 1),
                                d as usize,
                            ));
                        }
                    }
                }
            },
        }
        k = k + 1;
    }
    proof {
        assert(tv.take(terms@.len() as int) =~= tv);
    }
    let mut out: Vec<(usize, Vec<(usize, usize)>)> = Vec::new();
    let ghost rows_snap = rows@;
    let mut d: usize = 0;
    while d < n
        invariant
            d <= n,
            n == files@.len(),
            m == indexer@,
            tv == views_of(terms@),
            rows@ =~= rows_snap.skip(d as int),
            rows_snap.len() == n,
            flags@.len() == n,
            forall|i: int|
                0 <= i < n ==> contribs_view((#[trigger] rows_snap[i])@) == doc_contribs(
                    files@,
                    m,
                    tv,
                    i as usize,
                ),
            forall|i: int| 0 <= i < n ==> (#[trigger] flags@[i]) == touched(m, tv, i as usize),
            forall|j: int|
                0 <= j < out@.len() ==> (#[trigger] out@[j]).0 < d && touched(m, tv, out@[j].0)
                    && contribs_view(out@[j].1@) == doc_contribs(files@, m, tv, out@[j].0),
            forall|j1: int, j2: int| 0 <= j1 < j2 < out@.len() ==> out@[j1].0 < out@[j2].0,
            forall|i: usize|
                i < d && touched(m, tv, i) ==> exists|j: int|
                    0 <= j < out@.len() && (#[trigger] out@[j]).0 == i,
        decreases n - d,
    {
        let row = rows.remove(0);
        proof {
            assert(rows_snap.skip(d as int)[0] == rows_snap[d as int]);
            assert(rows_snap.skip(d as int).remove(0) =~= rows_snap.skip(d as int + 1));
        }
        let fl = flags[d];
        if fl {
            let ghost old_out = out@;
            out.push((d, row));
            proof {
                assert(out@[old_out.len() as int].0 == d);
                assert forall|i: usize|
                    i < d + 1 && touched(m, tv, i) implies exists|j: int|
                    0 <= j < out@.len() && (#[trigger] out@[j]).0 == i by {
                    if i < d {
                        let j = choose|j: int| 0 <= j < old_out.len() && (#[trigger] old_out[j]).0 == i;
                        assert(out@[j].0 == i);
                    } else {
                        assert(out@[old_out.len() as int].0 == i);
                    }
                }
            }
        }
        d = d + 1;
    }
    proof {
        if terms@.len() == 0 && out@.len() > 0 {
            assert(touched(m, tv, out@[0].0));
            assert(false);
        }
        if (forall|kk: int| 0 <= kk < terms@.len() ==> df_of(m, #[trigger] terms@[kk]@) == 0)
            && out@.len() > 0 {
            assert(touched(m, tv, out@[0].0));
            let kk = choose|kk: int|
                0 <= kk < tv.len() && postings_of(m, #[trigger] tv[kk]).contains(out@[0].0);
            assert(tv[kk] == terms@[kk]@);
            assert(df_of(m, terms@[kk]@) > 0);
            assert(false);
        }
    }
    out
}

/// A sequence of distinct values below `n` has at most `n` elements.
proof fn lemma_bounded_distinct_len(s: Seq<usize>, n: nat)
    requires
        s.no_duplicates(),
        forall|j: int| 0 <= j < s.len() ==> (s[j] as nat) < n,
    ensures
        s.len() <= n,
{
    let si = s.map_values(|x: usize| x as int);
    assert(si.no_duplicates()) by {
        assert forall|p: int, q: int| 0 <= p < q < si.len() implies si[p] != si[q] by {
            assert(s[p] != s[q]);
        }
    }
    si.unique_seq_to_set();
    let rng = vstd::set_lib::set_int_range(0, n as int);
    assert(si.to_set().subset_of(rng)) by {
        assert forall|x: int| si.to_set().contains(x) implies rng.contains(x) by {
            assert(si.contains(x));
            let j = choose|j: int| 0 <= j < si.len() && si[j] == x;
            assert((s[j] as nat) < n);
        }
    }
    vstd::set_lib::lemma_int_range(0, n as int);
    vstd::set_lib::lemma_len_subset(si.to_set(), rng);
}

/// Every contribution pair a query gives a document of a sound,
/// well-formed index has a document frequency between 1 and the store
/// size: the idf factor `log10(n / df)` of every pair is therefore
/// non-negative, and so is every score.
pub proof fn lemma_contrib_bounds(
    files: Seq<FileEntry>,
    m: IndexModel,
    terms: Seq<Seq<char>>,
    id: usize,
    j: int,
)
    requires
        ix_wf(m),
        ix_sound(m, files),
        0 <= j < doc_contribs(files, m, terms, id).len(),
    ensures
        1 <= doc_contribs(files, m, terms, id)[j].1 <= files.len(),
    decreases terms.len(),
{
    if terms.len() > 0 {
        let head: Seq<(nat, nat)> = if postings_of(m, terms[0]).contains(id) {
            seq![contrib_of(files, m, terms[0], id)]
        } else {
            Seq::empty()
        };
        if postings_of(m, terms[0]).contains(id) && j == 0 {
            lemma_find_key(m, terms[0]);
            let i = find_key(m, terms[0]);
            assert(i >= 0);
            let s = m[i].1;
            assert(doc_contribs(files, m, terms, id)[0] == contrib_of(files, m, terms[0], id));
            assert(df_of(m, terms[0]) == s.len());
            assert(s.len() >= 1);
            assert forall|jj: int| 0 <= jj < s.len() implies (s[jj] as nat) < files.len() by {
                assert(s.contains(s[jj]));
            }
            assert(s.no_duplicates());
            lemma_bounded_distinct_len(s, files.len() as nat);
        } else {
            let hl = head.len() as int;
            assert(doc_contribs(files, m, terms, id)[j] == doc_contribs(
                files,
                m,
                terms.skip(1),
                id,
            )[j - hl]);
            lemma_contrib_bounds(files, m, terms.skip(1), id, j - hl);
        }
    }
}

/// Adding a term to a query extends, and never rewrites, a document's
/// contribution list: the old pairs stay as a prefix and at most one
/// pair is appended. Since every pair's real-valued contribution
/// `tf * log10(n / df)` is non-negative for a sound index, a longer
/// query can only raise or preserve a document's score.
pub proof fn lemma_query_term_extends(
    files: Seq<FileEntry>,
    m: IndexModel,
    terms: Seq<Seq<char>>,
    t: Seq<char>,
    id: usize,
)
    ensures
        doc_contribs(files, m, terms, id).is_prefix_of(
            doc_contribs(files, m, terms.push(t), id),
        ),
        doc_contribs(files, m, terms.push(t), id).len() <= doc_contribs(
            files,
            m,
            terms,
            id,
        ).len() + 1,
{
    lemma_doc_contribs_snoc(files, m, terms, t, id);
    let a = doc_contribs(files, m, terms, id);
    let b = doc_contribs(files, m, terms.push(t), id);
    assert(b.take(a.len() as int) =~= a);
}

/// Building the index from the same store twice yields the same index:
/// the construction is a function of the store alone.
pub proof fn lemma_build_deterministic(files: Seq<FileEntry>, m1: IndexModel, m2: IndexModel)
    requires
        m1 == build_spec(files),
        m2 == build_spec(files),
    ensures
        m1 == m2,
{
}

/// The term frequency of `query` in a document: the number of
/// non-overlapping occurrences of `query` as a substring of the
/// combined title-and-content stream.
pub fn term_frequency(file: &FileEntry, query: &String) -> (r: usize)
    requires
        query@.len() >= 1,
    ensures
        r as nat == count_matches(combined(*file), query@),
{
    let doc = file.combined_text();
    crate::text::substring_count(doc.as_str(), query.as_str())
}

/// Builds the whole system from enumerated `(path, content)` records:
/// the document store with dense ids in enumeration order, and the
/// inverted index over it, well-formed, sound and complete.
pub fn build_system(records: Vec<(String, String)>) -> (r: (Vec<FileEntry>, Indexer))
    ensures
        r.0@.len() == records@.len(),
        forall|i: int|
            0 <= i < r.0@.len() ==> {
                &&& (#[trigger] r.0@[i]).id == i
                &&& r.0@[i].title@ == crate::file_logic::stem_of(records@[i].0@)
                &&& r.0@[i].content@ == records@[i].1@
                &&& r.0@[i].path@ == records@[i].0@
            },
        store_wf(r.0@),
        r.1@ == build_spec(r.0@),
        ix_wf(r.1@),
        ix_sound(r.1@, r.0@),
        ix_complete(r.1@, r.0@),
{
    let files = crate::file_logic::get_file_set(records);
    let indexer = generate_indexer(&files);
    (files, indexer)
}

/// Splits a raw query string at whitespace and evaluates the resulting
/// terms: one hit per touched document, in ascending id order, each
/// with its exact contribution pairs (see `query`).
pub fn run_query(files: &Vec<FileEntry>, indexer: &Indexer, raw_query: &str) -> (r: Vec<
    (usize, Vec<(usize, usize)>),
>)
    requires
        ix_wf(indexer@),
        ix_sound(indexer@, files@),
    ensures
        forall|j: int|
            0 <= j < r@.len() ==> (#[trigger] r@[j]).0 < files@.len() && touched(
                indexer@,
                tokenize(raw_query@),
                r@[j].0,
            ) && contribs_view(r@[j].1@) == doc_contribs(
                files@,
                indexer@,
                tokenize(raw_query@),
                r@[j].0,
            ),
        forall|j1: int, j2: int| 0 <= j1 < j2 < r@.len() ==> r@[j1].0 < r@[j2].0,
        forall|id: usize|
            id < files@.len() && touched(indexer@, tokenize(raw_query@), id) ==> exists|j: int|
                0 <= j < r@.len() && (#[trigger] r@[j]).0 == id,
        tokenize(raw_query@).len() == 0 ==> r@.len() == 0,
{
    let terms = tokenize_text(raw_query);
    let r = query(files, indexer, &terms);
    proof {
        assert(views_of(terms@) == tokenize(raw_query@));
        if tokenize(raw_query@).len() == 0 {
            assert(terms@.len() == 0);
        }
    }
    r
}

} // verus!
