//! Positional matching on character sequences: literal occurrences, bracket
//! blocks closed by the first closer that follows them, and literal
//! replacement.
use vstd::prelude::*;

verus! {

/// `p` occurs in `s` starting at position `i`.
pub open spec fn occurs_at(s: Seq<char>, i: int, p: Seq<char>) -> bool {
    0 <= i && i + p.len() <= s.len() && s.subrange(i, i + p.len()) == p
}

/// The two spellings of a block's closer.
pub struct Closers {
    pub close: Vec<char>,
    pub alt: Vec<char>,
}

/// Where a block whose body starts at `j` ends: just after the first closer
/// at or after `j`, in either of its spellings `close` and `alt`.
pub open spec fn block_close(s: Seq<char>, j: int, close: Seq<char>, alt: Seq<char>) -> Option<int>
    decreases s.len() - j,
{
    if j < 0 || j >= s.len() {
        None
    } else if occurs_at(s, j, close) {
        Some(j + close.len())
    } else if occurs_at(s, j, alt) {
        Some(j + alt.len())
    } else {
        block_close(s, j + 1, close, alt)
    }
}

/// The end of the block that starts at `i` with `open`, if one does.
pub open spec fn block_at(s: Seq<char>, i: int, open: Seq<char>, close: Seq<char>, alt: Seq<char>) -> Option<int> {
    if occurs_at(s, i, open) {
        block_close(s, i + open.len(), close, alt)
    } else {
        None
    }
}

/// `s[i..]` with each block `open ... close`, taken leftmost first, replaced
/// by `rep`.
pub open spec fn replace_blocks_from(
    s: Seq<char>,
    i: int,
    open: Seq<char>,
    close: Seq<char>,
    alt: Seq<char>,
    rep: Seq<char>,
) -> Seq<char>
    decreases s.len() - i,
{
    if i < 0 || i >= s.len() {
        Seq::empty()
    } else {
        let m = block_at(s, i, open, close, alt);
        if m is Some && i < m->Some_0 <= s.len() {
            rep + replace_blocks_from(s, m->Some_0, open, close, alt, rep)
        } else {
            seq![s[i]] + replace_blocks_from(s, i + 1, open, close, alt, rep)
        }
    }
}

/// `s` with each block that opens with `open` and ends at the first closer
/// after it (`close` or `alt`), taken leftmost first, replaced by `rep`.
pub open spec fn replace_blocks(s: Seq<char>, open: Seq<char>, close: Seq<char>, alt: Seq<char>, rep: Seq<char>) -> Seq<char> {
    replace_blocks_from(s, 0, open, close, alt, rep)
}

/// `s[i..]` with each occurrence of `pat`, taken leftmost first and without
/// overlap, replaced by `rep`.
pub open spec fn replace_lit_from(s: Seq<char>, i: int, pat: Seq<char>, rep: Seq<char>) -> Seq<char>
    decreases s.len() - i,
{
    if i < 0 || i >= s.len() {
        Seq::empty()
    } else if pat.len() > 0 && occurs_at(s, i, pat) {
        rep + replace_lit_from(s, i + pat.len(), pat, rep)
    } else {
        seq![s[i]] + replace_lit_from(s, i + 1, pat, rep)
    }
}

/// `s` with each occurrence of `pat` replaced by `rep`.
pub open spec fn replace_lit(s: Seq<char>, pat: Seq<char>, rep: Seq<char>) -> Seq<char> {
    replace_lit_from(s, 0, pat, rep)
}

/// A position as an integer.
pub open spec fn opt_int(o: Option<usize>) -> Option<int> {
    match o {
        Some(v) => Some(v as int),
        None => None,
    }
}

/// A block ends after the start of its body and within the text.
pub proof fn lemma_block_close_bounds(s: Seq<char>, j: int, close: Seq<char>, alt: Seq<char>)
    ensures
        block_close(s, j, close, alt) matches Some(e) ==> j <= e <= s.len(),
    decreases s.len() - j,
{
    if !(j < 0 || j >= s.len()) && !occurs_at(s, j, close) && !occurs_at(s, j, alt) {
        lemma_block_close_bounds(s, j + 1, close, alt);
    }
}

/// Whether `p` occurs in `s` at `i`.
pub fn matches_at(s: &Vec<char>, i: usize, p: &Vec<char>) -> (r: bool)
    ensures
        r == occurs_at(s@, i as int, p@),
{
    if i > s.len() || p.len() > s.len() - i {
        return false;
    }
    let n = s.len();
    let mut k: usize = 0;
    while k < p.len()
        invariant
            n == s@.len(),
            i + p@.len() <= n,
            k <= p@.len(),
            forall|t: int| 0 <= t < k ==> s@[i + t] == p@[t],
        decreases p@.len() - k,
    {
        if s[i + k] != p[k] {
            assert(s@.subrange(i as int, i + p@.len())[k as int] != p@[k as int]);
            return false;
        }
        k += 1;
    }
    assert(s@.subrange(i as int, i + p@.len()) =~= p@);
    true
}

/// Where the block whose body starts at `j` ends, if it does.
fn find_block_close(s: &Vec<char>, j: usize, closers: &Closers) -> (r: Option<usize>)
    ensures
        opt_int(r) == block_close(s@, j as int, closers.close@, closers.alt@),
{
    let n = s.len();
    let mut k: usize = j;
    while k < n
        invariant
            n == s@.len(),
            j <= k,
            block_close(s@, j as int, closers.close@, closers.alt@)
                == block_close(s@, k as int, closers.close@, closers.alt@),
        decreases n - k,
    {
        if matches_at(s, k, &closers.close) {
            return Some(k + closers.close.len());
        }
        if matches_at(s, k, &closers.alt) {
            return Some(k + closers.alt.len());
        }
        k += 1;
    }
    None
}

/// The end of the block that starts at `i` with `open`, if one does.
pub fn find_block(s: &Vec<char>, i: usize, open: &Vec<char>, closers: &Closers) -> (r: Option<usize>)
    ensures
        opt_int(r) == block_at(s@, i as int, open@, closers.close@, closers.alt@),
        r matches Some(e) ==> i + open@.len() <= e <= s@.len(),
{
    let n = s.len();
    if matches_at(s, i, open) {
        assert(i + open@.len() <= n);
        let r = find_block_close(s, i + open.len(), closers);
        proof {
            lemma_block_close_bounds(s@, i + open@.len(), closers.close@, closers.alt@);
        }
        r
    } else {
        None
    }
}

/// `s` with each block that opens with `open` and ends at the first closer
/// after it replaced by `rep`.
pub fn replace_all_blocks(s: &Vec<char>, open: &Vec<char>, closers: &Closers, rep: &Vec<char>) -> (r: Vec<char>)
    requires
        open@.len() > 0,
    ensures
        r@ == replace_blocks(s@, open@, closers.close@, closers.alt@, rep@),
{
    let mut out: Vec<char> = Vec::new();
    let mut i: usize = 0;
    while i < s.len()
        invariant
            i <= s@.len(),
            open@.len() > 0,
            out@ + replace_blocks_from(s@, i as int, open@, closers.close@, closers.alt@, rep@)
                == replace_blocks(s@, open@, closers.close@, closers.alt@, rep@),
        decreases s@.len() - i,
    {
        let ghost before = out@;
        match find_block(s, i, open, closers) {
            Some(e) => {
                out.extend_from_slice(rep.as_slice());
                assert(out@ =~= before + rep@);
                assert(before + (rep@ + replace_blocks_from(s@, e as int, open@, closers.close@, closers.alt@, rep@))
                    =~= out@ + replace_blocks_from(s@, e as int, open@, closers.close@, closers.alt@, rep@));
                i = e;
            },
            None => {
                out.push(s[i]);
                assert(before + (seq![s@[i as int]] + replace_blocks_from(s@, i + 1, open@, closers.close@, closers.alt@, rep@))
                    =~= out@ + replace_blocks_from(s@, i + 1, open@, closers.close@, closers.alt@, rep@));
                i += 1;
            },
        }
    }
    assert(out@ + Seq::<char>::empty() =~= out@);
    out
}

/// `s` with each occurrence of `pat` replaced by `rep`.
pub fn replace_all_lit(s: &Vec<char>, pat: &Vec<char>, rep: &Vec<char>) -> (r: Vec<char>)
    ensures
        r@ == replace_lit(s@, pat@, rep@),
{
    let mut out: Vec<char> = Vec::new();
    let mut i: usize = 0;
    while i < s.len()
        invariant
            i <= s@.len(),
            out@ + replace_lit_from(s@, i as int, pat@, rep@) == replace_lit(s@, pat@, rep@),
        decreases s@.len() - i,
    {
        let ghost before = out@;
        if pat.len() > 0 && matches_at(s, i, pat) {
            out.extend_from_slice(rep.as_slice());
            assert(out@ =~= before + rep@);
            assert(before + (rep@ + replace_lit_from(s@, i + pat@.len(), pat@, rep@))
                =~= out@ + replace_lit_from(s@, i + pat@.len(), pat@, rep@));
            i = i + pat.len();
        } else {
            out.push(s[i]);
            assert(before + (seq![s@[i as int]] + replace_lit_from(s@, i + 1, pat@, rep@))
                =~= out@ + replace_lit_from(s@, i + 1, pat@, rep@));
            i += 1;
        }
    }
    assert(out@ + Seq::<char>::empty() =~= out@);
    out
}

} // verus!
