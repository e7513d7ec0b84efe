//! Tokenization of type strings for the fuzzy matcher, and the documents
//! handed to it when the fuzzy index is rebuilt.

use vstd::prelude::*;
use vstd::string::{StrSliceExecFns, StringExecFns};

verus! {

/// Whether the tokenizer sets a character off with spaces.
pub open spec fn is_special(c: char) -> bool {
    c == '<' || c == '>' || c == '[' || c == ']' || c == '&'
}

/// Each set-off character surrounded by spaces; other characters kept.
pub open spec fn expand(s: Seq<char>) -> Seq<char>
    decreases s.len(),
{
    if s.len() == 0 {
        Seq::empty()
    } else {
        let head = if is_special(s[0]) {
            seq![' ', s[0], ' ']
        } else {
            seq![s[0]]
        };
        head + expand(s.skip(1))
    }
}

/// Runs of repeated spaces collapsed to a single space.
pub open spec fn collapse(s: Seq<char>) -> Seq<char>
    decreases s.len(),
{
    if s.len() == 0 {
        Seq::empty()
    } else if s.len() >= 2 && s[0] == ' ' && s[1] == ' ' {
        collapse(s.skip(1))
    } else {
        seq![s[0]] + collapse(s.skip(1))
    }
}

/// The tokenized form of a type string: set-off punctuation, single spaces.
pub open spec fn tokenized(s: Seq<char>) -> Seq<char> {
    collapse(expand(s))
}

/// Whether the tokenizer sets this character off with spaces.
fn is_special_exec(c: char) -> (r: bool)
    ensures
        r == is_special(c),
{
    c == '<' || c == '>' || c == '[' || c == ']' || c == '&'
}

fn expand_str(s: &str) -> (r: String)
    ensures
        r@ == expand(s@),
{
    let n = s.unicode_len();
    let mut r = String::new();
    proof {
        reveal_strlit(" ");
        assert(" "@ =~= seq![' ']);
        assert(s@.skip(0) =~= s@);
    }
    let mut i: usize = 0;
    while i < n
        invariant
            i <= n,
            n == s@.len(),
            " "@ == seq![' '],
            expand(s@) == r@ + expand(s@.skip(i as int)),
        decreases n - i,
    {
        let c = s.get_char(i);
        let piece = s.substring_char(i, i + 1);
        proof {
            assert(piece@ =~= seq![s@[i as int]]);
            assert(s@.skip(i as int)[0] == s@[i as int]);
            assert(s@.skip(i as int).skip(1) =~= s@.skip(i + 1));
        }
        if is_special_exec(c) {
            r.append(" ");
            r.append(piece);
            r.append(" ");
            proof {
                assert(expand(s@) =~= r@ + expand(s@.skip(i + 1)));
            }
        } else {
            r.append(piece);
            proof {
                assert(expand(s@) =~= r@ + expand(s@.skip(i + 1)));
            }
        }
        i = i + 1;
    }
    proof {
        assert(s@.skip(n as int) =~= Seq::<char>::empty());
        assert(r@ =~= expand(s@));
    }
    r
}

fn collapse_str(s: &str) -> (r: String)
    ensures
        r@ == collapse(s@),
{
    let n = s.unicode_len();
    let mut r = String::new();
    proof {
        assert(s@.skip(0) =~= s@);
    }
    let mut i: usize = 0;
    while i < n
        invariant
            i <= n,
            n == s@.len(),
            collapse(s@) == r@ + collapse(s@.skip(i as int)),
        decreases n - i,
    {
        let c = s.get_char(i);
        proof {
            assert(s@.skip(i as int)[0] == s@[i as int]);
            assert(s@.skip(i as int).skip(1) =~= s@.skip(i + 1));
        }
        let mut doubled = false;
        if c == ' ' && i + 1 < n {
            let c2 = s.get_char(i + 1);
            if c2 == ' ' {
                doubled = true;
            }
            proof {
                assert(s@.skip(i as int)[1] == s@[i + 1]);
            }
        }
        if doubled {
            proof {
                assert(collapse(s@) =~= r@ + collapse(s@.skip(i + 1)));
            }
        } else {
            let piece = s.substring_char(i, i + 1);
            proof {
                assert(piece@ =~= seq![s@[i as int]]);
            }
            r.append(piece);
            proof {
                assert(collapse(s@.skip(i as int)) =~= seq![s@[i as int]] + collapse(
                    s@.skip(i + 1),
                ));
                assert(collapse(s@) =~= r@ + collapse(s@.skip(i + 1)));
            }
        }
        i = i + 1;
    }
    proof {
        assert(s@.skip(n as int) =~= Seq::<char>::empty());
        assert(r@ =~= collapse(s@));
    }
    r
}

/// The tokenized form of a type string: `< > [ ] &` set off by spaces,
/// runs of spaces collapsed, so that the fuzzy matcher sees punctuation
/// as separate words.
pub fn tokenize_type(s: &str) -> (r: String)
    ensures
        r@ == tokenized(s@),
{
    let expanded = expand_str(s);
    collapse_str(expanded.as_str())
}

/// One document for the fuzzy index: a position-derived id, the tokenized
/// form that is matched, and the original string that is returned on a hit
/// and later used for exact store lookups.
pub struct TypeDoc {
    pub id: u64,
    pub ty: String,
    pub orig: String,
}

/// The documents for one rebuilt fuzzy index: one per distinct type
/// string, numbered in order, each carrying its tokenized form beside the
/// original.
pub fn build_docs(keys: &Vec<String>) -> (docs: Vec<TypeDoc>)
    requires
        keys@.len() <= u64::MAX,
    ensures
        docs@.len() == keys@.len(),
        forall|i: int|
            0 <= i < docs@.len() ==> (#[trigger] docs@[i]).id == i && docs@[i].ty@ == tokenized(
                keys@[i]@,
            ) && docs@[i].orig@ == keys@[i]@,
{
    let mut docs: Vec<TypeDoc> = Vec::new();
    let mut i: usize = 0;
    while i < keys.len()
        invariant
            i <= keys@.len(),
            keys@.len() <= u64::MAX,
            docs@.len() == i,
            forall|k: int|
                0 <= k < i ==> (#[trigger] docs@[k]).id == k && docs@[k].ty@ == tokenized(
                    keys@[k]@,
                ) && docs@[k].orig@ == keys@[k]@,
        decreases keys@.len() - i,
    {
        let ty = tokenize_type(keys[i].as_str());
        let orig = keys[i].clone();
        docs.push(TypeDoc { id: i as u64, ty, orig });
        i = i + 1;
    }
    docs
}

} // verus!
