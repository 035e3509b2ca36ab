//! Whitespace tokenization and non-overlapping substring counting.

use vstd::prelude::*;

verus! {

/// The whitespace class at which tokenization splits: space, tab,
/// newline and carriage return.
pub open spec fn is_ws(c: char) -> bool {
    c == ' ' || c == '\t' || c == '\n' || c == '\r'
}

/// The character sequences of a sequence of owned strings.
pub open spec fn views_of(ts: Seq<String>) -> Seq<Seq<char>> {
    ts.map_values(|t: String| t@)
}

/// Tokens of `cur + s` where `cur` is a word in progress: the text is
/// consumed one character at a time, whitespace ends the current word,
/// and empty words are never emitted.
pub open spec fn tok_rec(s: Seq<char>, cur: Seq<char>) -> Seq<Seq<char>>
    decreases s.len(),
{
    if s.len() == 0 {
        if cur.len() == 0 {
            Seq::empty()
        } else {
            seq![cur]
        }
    } else if is_ws(s[0]) {
        if cur.len() == 0 {
            tok_rec(s.skip(1), cur)
        } else {
            seq![cur] + tok_rec(s.skip(1), Seq::empty())
        }
    } else {
        tok_rec(s.skip(1), cur.push(s[0]))
    }
}

/// The sequence of maximal non-whitespace runs of `s`, in order.
pub open spec fn tokenize(s: Seq<char>) -> Seq<Seq<char>> {
    tok_rec(s, Seq::empty())
}

/// Every token produced by tokenization is non-empty.
pub proof fn lemma_tokens_nonempty(s: Seq<char>, cur: Seq<char>)
    ensures
        forall|j: int|
            0 <= j < tok_rec(s, cur).len() ==> (#[trigger] tok_rec(s, cur)[j]).len() > 0,
    decreases s.len(),
{
    if s.len() == 0 {
        if cur.len() == 0 {
            assert(tok_rec(s, cur).len() == 0);
        } else {
            assert(tok_rec(s, cur) == seq![cur]);
            assert(tok_rec(s, cur)[0] == cur);
        }
    } else if is_ws(s[0]) {
        if cur.len() == 0 {
            lemma_tokens_nonempty(s.skip(1), cur);
            assert(tok_rec(s, cur) == tok_rec(s.skip(1), cur));
        } else {
            lemma_tokens_nonempty(s.skip(1), Seq::empty());
            assert forall|j: int| 0 <= j < tok_rec(s, cur).len() implies (#[trigger] tok_rec(
                s,
                cur,
            )[j]).len() > 0 by {
                if j > 0 {
                    assert(tok_rec(s, cur)[j] == tok_rec(s.skip(1), Seq::empty())[j - 1]);
                }
            }
        }
    } else {
        lemma_tokens_nonempty(s.skip(1), cur.push(s[0]));
        assert(tok_rec(s, cur) == tok_rec(s.skip(1), cur.push(s[0])));
    }
}

/// The number of non-overlapping occurrences of `pat` in `doc`, found
/// by a left-to-right scan; zero when `pat` is empty.
pub open spec fn count_matches(doc: Seq<char>, pat: Seq<char>) -> nat
    decreases doc.len(),
{
    if pat.len() == 0 || doc.len() < pat.len() {
        0
    } else if doc.take(pat.len() as int) == pat {
        1 + count_matches(doc.skip(pat.len() as int), pat)
    } else {
        count_matches(doc.skip(1), pat)
    }
}

/// Splits `s` at runs of whitespace and returns the non-empty tokens,
/// in order, as owned strings.
pub fn tokenize_text(s: &str) -> (r: Vec<String>)
    ensures
        views_of(r@) == tokenize(s@),
{
    let n = s.unicode_len();
    let mut r: Vec<String> = Vec::new();
    let mut i: usize = 0;
    let mut start: usize = 0;
    let mut in_word: bool = false;
    proof {
        assert(s@.skip(0) =~= s@);
        assert(views_of(r@) =~= Seq::<Seq<char>>::empty());
        assert(Seq::<Seq<char>>::empty() + tokenize(s@) =~= tokenize(s@));
    }
    while i < n
        invariant
            n == s@.len(),
            i <= n,
            in_word ==> start < i,
            !in_word ==> tokenize(s@) == views_of(r@) + tok_rec(s@.skip(i as int), Seq::empty()),
            in_word ==> tokenize(s@) == views_of(r@) + tok_rec(
                s@.skip(i as int),
                s@.subrange(start as int, i as int),
            ),
        decreases n - i,
    {
        proof {
            assert(s@.skip(i as int).len() > 0);
            assert(s@.skip(i as int)[0] == s@[i as int]);
            assert(s@.skip(i as int).skip(1) =~= s@.skip(i as int + 1));
        }
        let c = s.get_char(i);
        if c == ' ' || c == '\t' || c == '\n' || c == '\r' {
            if in_word {
                let tok = s.substring_char(start, i).to_owned();
                proof {
                    let cur = s@.subrange(start as int, i as int);
                    assert(tok_rec(s@.skip(i as int), cur) == seq![cur] + tok_rec(
                        s@.skip(i as int + 1),
                        Seq::empty(),
                    ));
                    assert(views_of(r@.push(tok)) =~= views_of(r@).push(cur));
                    assert(views_of(r@) + (seq![cur] + tok_rec(s@.skip(i as int + 1), Seq::empty()))
                        =~= views_of(r@).push(cur) + tok_rec(s@.skip(i as int + 1), Seq::empty()));
                }
                r.push(tok);
                in_word = false;
            }
        } else {
            if !in_word {
                start = i;
                in_word = true;
                proof {
                    assert(s@.subrange(start as int, i as int) =~= Seq::<char>::empty());
                }
            }
            proof {
                let cur = s@.subrange(start as int, i as int);
                assert(cur.push(s@[i as int]) =~= s@.subrange(start as int, i as int + 1));
            }
        }
        i = i + 1;
    }
    if in_word {
        let tok = s.substring_char(start, n).to_owned();
        proof {
            let cur = s@.subrange(start as int, i as int);
            assert(s@.skip(i as int).len() == 0);
            assert(tok_rec(s@.skip(i as int), cur) == seq![cur]);
            assert(views_of(r@.push(tok)) =~= views_of(r@).push(cur));
            assert(views_of(r@) + seq![cur] =~= views_of(r@).push(cur));
        }
        r.push(tok);
    } else {
        proof {
            assert(s@.skip(i as int).len() == 0);
            assert(tok_rec(s@.skip(i as int), Seq::empty()) == Seq::<Seq<char>>::empty());
            assert(views_of(r@) + Seq::<Seq<char>>::empty() =~= views_of(r@));
        }
    }
    r
}

/// Counts the non-overlapping occurrences of `pat` in `doc` by a
/// left-to-right scan.
pub fn substring_count(doc: &str, pat: &str) -> (r: usize)
    requires
        pat@.len() >= 1,
    ensures
        r as nat == count_matches(doc@, pat@),
{
    let n = doc.unicode_len();
    let m = pat.unicode_len();
    if m > n {
        return 0;
    }
    let mut i: usize = 0;
    let mut count: usize = 0;
    proof {
        assert(doc@.skip(0) =~= doc@);
    }
    while i <= n - m
        invariant
            n == doc@.len(),
            m == pat@.len(),
            1 <= m <= n,
            i <= n,
            count <= i,
            count + count_matches(doc@.skip(i as int), pat@) == count_matches(doc@, pat@),
        decreases n - i,
    {
        let mut j: usize = 0;
        let mut mismatch: bool = false;
        while j < m
            invariant
                n == doc@.len(),
                m == pat@.len(),
                i + m <= n,
                j <= m,
                !mismatch ==> forall|k: int| 0 <= k < j ==> doc@[i + k] == pat@[k],
                mismatch ==> exists|k: int| 0 <= k < m && doc@[i + k] != pat@[k],
            decreases m - j,
        {
            if !mismatch {
                if doc.get_char(i + j) != pat.get_char(j) {
                    mismatch = true;
                }
            }
            j = j + 1;
        }
        proof {
            let rest = doc@.skip(i as int);
            assert(rest.len() == n - i >= m);
            if !mismatch {
                assert(rest.take(m as int) =~= pat@);
                assert(count_matches(rest, pat@) == 1 + count_matches(rest.skip(m as int), pat@));
                assert(rest.skip(m as int) =~= doc@.skip(i + m));
            } else {
                let k = choose|k: int| 0 <= k < m && doc@[i + k] != pat@[k];
                assert(rest.take(m as int)[k] == doc@[i + k]);
                assert(rest.take(m as int) != pat@);
                assert(count_matches(rest, pat@) == count_matches(rest.skip(1), pat@));
                assert(rest.skip(1) =~= doc@.skip(i as int + 1));
            }
        }
        if !mismatch {
            count = count + 1;
            i = i + m;
        } else {
            i = i + 1;
        }
    }
    proof {
        assert(doc@.skip(i as int).len() < m);
        assert(count_matches(doc@.skip(i as int), pat@) == 0);
    }
    count
}

} // verus!
