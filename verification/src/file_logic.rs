//! Building the document store from enumerated file records, and the
//! filename-stem computation that gives a document its title.

use vstd::prelude::*;
use crate::file_entry::FileEntry;

verus! {

/// The largest index at which `c` occurs in `s`, or -1 when it does
/// not occur.
pub open spec fn last_index_of(s: Seq<char>, c: char) -> int
    decreases s.len(),
{
    if s.len() == 0 {
        -1
    } else if s[s.len() - 1] == c {
        s.len() - 1
    } else {
        last_index_of(s.drop_last(), c)
    }
}

pub proof fn lemma_last_index_bounds(s: Seq<char>, c: char)
    ensures
        -1 <= last_index_of(s, c) < s.len(),
    decreases s.len(),
{
    if s.len() > 0 && s[s.len() - 1] != c {
        lemma_last_index_bounds(s.drop_last(), c);
    }
}

pub proof fn lemma_last_index_none(s: Seq<char>, c: char)
    requires
        forall|k: int| 0 <= k < s.len() ==> s[k] != c,
    ensures
        last_index_of(s, c) == -1,
    decreases s.len(),
{
    if s.len() > 0 {
        assert(forall|k: int| 0 <= k < s.drop_last().len() ==> s.drop_last()[k] == s[k]);
        lemma_last_index_none(s.drop_last(), c);
    }
}

pub proof fn lemma_last_index_found(s: Seq<char>, c: char, i: int)
    requires
        0 <= i < s.len(),
        s[i] == c,
        forall|k: int| i < k < s.len() ==> s[k] != c,
    ensures
        last_index_of(s, c) == i,
    decreases s.len(),
{
    if i < s.len() - 1 {
        assert(s.drop_last()[i] == s[i]);
        assert(forall|k: int| i < k < s.drop_last().len() ==> s.drop_last()[k] == s[k]);
        lemma_last_index_found(s.drop_last(), c, i);
    }
}

/// The final path component: everything after the last `/`, or the
/// whole path when there is none.
pub open spec fn basename(s: Seq<char>) -> Seq<char> {
    s.subrange(last_index_of(s, '/') + 1, s.len() as int)
}

/// The filename stem: the basename with its final extension removed.
/// A dot at the very start of the basename does not begin an
/// extension, so a leading-dot name is kept whole.
pub open spec fn stem_of(path: Seq<char>) -> Seq<char> {
    let b = basename(path);
    let d = last_index_of(b, '.');
    if d <= 0 {
        b
    } else {
        b.take(d)
    }
}

/// Computes the filename stem of a path: the part after the last `/`,
/// truncated at its last `.` unless that dot is its first character.
pub fn get_file_title(path: &str) -> (r: String)
    ensures
        r@ == stem_of(path@),
{
    let n = path.unicode_len();
    let mut j: usize = n;
    let mut sep: usize = 0;
    let mut found: bool = false;
    while j > 0
        invariant
            n == path@.len(),
            j <= n,
            !found ==> sep == 0 && forall|k: int| j <= k < n ==> path@[k] != '/',
            found ==> 0 < sep <= n && path@[sep - 1] == '/' && forall|k: int|
                sep <= k < n ==> path@[k] != '/',
        decreases j,
    {
        if !found && path.get_char(j - 1) == '/' {
            found = true;
            sep = j;
        }
        j = j - 1;
    }
    proof {
        if found {
            lemma_last_index_found(path@, '/', sep - 1);
        } else {
            lemma_last_index_none(path@, '/');
        }
        assert(last_index_of(path@, '/') == sep as int - 1);
    }
    let bstart = sep;
    let ghost b = path@.subrange(bstart as int, n as int);
    let mut j2: usize = n;
    let mut dot: usize = 0;
    let mut dfound: bool = false;
    while j2 > bstart
        invariant
            n == path@.len(),
            bstart <= j2 <= n,
            !dfound ==> dot == 0 && forall|k: int| j2 <= k < n ==> path@[k] != '.',
            dfound ==> bstart < dot <= n && path@[dot - 1] == '.' && forall|k: int|
                dot <= k < n ==> path@[k] != '.',
        decreases j2,
    {
        if !dfound && path.get_char(j2 - 1) == '.' {
            dfound = true;
            dot = j2;
        }
        j2 = j2 - 1;
    }
    proof {
        assert(b.len() == n - bstart);
        assert(forall|k: int| 0 <= k < b.len() ==> b[k] == path@[bstart + k]);
        if dfound {
            lemma_last_index_found(b, '.', dot - 1 - bstart);
            assert(last_index_of(b, '.') == dot - 1 - bstart);
        } else {
            lemma_last_index_none(b, '.');
            assert(last_index_of(b, '.') == -1);
        }
    }
    if dfound && dot - 1 > bstart {
        let r = path.substring_char(bstart, dot - 1).to_owned();
        proof {
            assert(path@.subrange(bstart as int, dot - 1) =~= b.take(dot - 1 - bstart));
        }
        r
    } else {
        let r = path.substring_char(bstart, n).to_owned();
        proof {
            assert(path@.subrange(bstart as int, n as int) =~= b);
        }
        r
    }
}

/// The error of a document lookup: the id was never assigned.
#[derive(Debug)]
pub enum StoreError {
    UnknownId,
}

/// Looks a document up by id: the store is keyed densely from 0, so an
/// id is known exactly when it is below the store's length.
pub fn get_document<'a>(files: &'a Vec<FileEntry>, id: usize) -> (r: Result<
    &'a FileEntry,
    StoreError,
>)
    ensures
        id < files@.len() ==> (r matches Ok(f) && *f == files@[id as int]),
        id >= files@.len() ==> (r matches Err(e) && e == StoreError::UnknownId),
{
    if id < files.len() {
        Ok(&files[id])
    } else {
        Err(StoreError::UnknownId)
    }
}

/// Builds the document store from enumerated `(path, content)` records:
/// ids are assigned densely from 0 in enumeration order, and each
/// document's title is the filename stem of its path.
pub fn get_file_set(records: Vec<(String, String)>) -> (files: Vec<FileEntry>)
    ensures
        files@.len() == records@.len(),
        forall|i: int|
            0 <= i < files@.len() ==> {
                &&& (#[trigger] files@[i]).id == i
                &&& files@[i].title@ == stem_of(records@[i].0@)
                &&& files@[i].content@ == records@[i].1@
                &&& files@[i].path@ == records@[i].0@
            },
{
    let mut files: Vec<FileEntry> = Vec::new();
    let mut i: usize = 0;
    while i < records.len()
        invariant
            i <= records@.len(),
            files@.len() == i,
            forall|k: int|
                0 <= k < i ==> {
                    &&& (#[trigger] files@[k]).id == k
                    &&& files@[k].title@ == stem_of(records@[k].0@)
                    &&& files@[k].content@ == records@[k].1@
                    &&& files@[k].path@ == records@[k].0@
                },
        decreases records@.len() - i,
    {
        let rec = &records[i];
        let f = FileEntry::new(i, rec.0.clone(), rec.1.clone());
        files.push(f);
        i = i + 1;
    }
    files
}

} // verus!
