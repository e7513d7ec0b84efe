//! The tie-break order on result records: crate name, then rendering.

use vstd::prelude::*;
use vstd::string::StrSliceExecFns;
use crate::detail::{FnDetail, FnDetailView};

verus! {

/// Lexicographic order on character sequences, by code point.
pub open spec fn lex_le(a: Seq<char>, b: Seq<char>) -> bool
    decreases a.len(),
{
    if a.len() == 0 {
        true
    } else if b.len() == 0 {
        false
    } else if a[0] == b[0] {
        lex_le(a.skip(1), b.skip(1))
    } else {
        a[0] < b[0]
    }
}

/// The order used inside one result band: crate name ascending, then the
/// rendered signature string ascending.
pub open spec fn detail_le(a: FnDetailView, b: FnDetailView) -> bool {
    if a.krate == b.krate {
        lex_le(a.s, b.s)
    } else {
        lex_le(a.krate, b.krate)
    }
}

pub proof fn lemma_lex_le_total(a: Seq<char>, b: Seq<char>)
    ensures
        lex_le(a, b) || lex_le(b, a),
    decreases a.len(),
{
    if a.len() > 0 && b.len() > 0 && a[0] == b[0] {
        lemma_lex_le_total(a.skip(1), b.skip(1));
    }
}

pub proof fn lemma_lex_le_antisym(a: Seq<char>, b: Seq<char>)
    requires
        lex_le(a, b),
        lex_le(b, a),
    ensures
        a == b,
    decreases a.len(),
{
    if a.len() == 0 {
        assert(b.len() == 0);
        assert(a =~= b);
    } else {
        assert(a[0] == b[0]);
        lemma_lex_le_antisym(a.skip(1), b.skip(1));
        assert(a.len() == b.len());
        assert forall|i: int| 0 <= i < a.len() implies a[i] == b[i] by {
            if i >= 1 {
                assert(a.skip(1)[i - 1] == b.skip(1)[i - 1]);
            }
        }
        assert(a =~= b);
    }
}

pub proof fn lemma_lex_le_trans(a: Seq<char>, b: Seq<char>, c: Seq<char>)
    requires
        lex_le(a, b),
        lex_le(b, c),
    ensures
        lex_le(a, c),
    decreases a.len(),
{
    if a.len() == 0 {
    } else {
        assert(b.len() > 0);
        if b.len() > 0 && c.len() > 0 && a[0] == b[0] && b[0] == c[0] {
            lemma_lex_le_trans(a.skip(1), b.skip(1), c.skip(1));
        }
    }
}

pub proof fn lemma_detail_le_total(a: FnDetailView, b: FnDetailView)
    ensures
        detail_le(a, b) || detail_le(b, a),
{
    lemma_lex_le_total(a.krate, b.krate);
    lemma_lex_le_total(a.s, b.s);
}

pub proof fn lemma_detail_le_trans(a: FnDetailView, b: FnDetailView, c: FnDetailView)
    requires
        detail_le(a, b),
        detail_le(b, c),
    ensures
        detail_le(a, c),
{
    if a.krate == b.krate && b.krate == c.krate {
        lemma_lex_le_trans(a.s, b.s, c.s);
    } else if a.krate == b.krate {
    } else if b.krate == c.krate {
    } else {
        lemma_lex_le_trans(a.krate, b.krate, c.krate);
        if a.krate == c.krate {
            lemma_lex_le_antisym(a.krate, b.krate);
        }
    }
}

/// Whether one string sorts at or before another, by code point.
pub fn str_le(a: &str, b: &str) -> (r: bool)
    ensures
        r == lex_le(a@, b@),
{
    let alen = a.unicode_len();
    let blen = b.unicode_len();
    let mut i: usize = 0;
    proof {
        assert(a@.skip(0) =~= a@);
        assert(b@.skip(0) =~= b@);
    }
    loop
        invariant
            i <= alen,
            i <= blen,
            alen == a@.len(),
            blen == b@.len(),
            lex_le(a@, b@) == lex_le(a@.skip(i as int), b@.skip(i as int)),
        decreases alen - i,
    {
        if i == alen {
            return true;
        }
        if i == blen {
            assert(b@.skip(i as int).len() == 0 && a@.skip(i as int).len() > 0);
            return false;
        }
        let ca = a.get_char(i);
        let cb = b.get_char(i);
        assert(a@.skip(i as int)[0] == a@[i as int]);
        assert(b@.skip(i as int)[0] == b@[i as int]);
        if ca == cb {
            proof {
                assert(a@.skip(i as int).skip(1) =~= a@.skip(i + 1));
                assert(b@.skip(i as int).skip(1) =~= b@.skip(i + 1));
            }
            i = i + 1;
        } else {
            return ca < cb;
        }
    }
}

/// Whether one record sorts at or before another within a band.
pub fn detail_le_exec(a: &FnDetail, b: &FnDetail) -> (r: bool)
    ensures
        r == detail_le(a@, b@),
{
    if a.krate == b.krate {
        str_le(a.s.as_str(), b.s.as_str())
    } else {
        str_le(a.krate.as_str(), b.krate.as_str())
    }
}

} // verus!
