//! Lexicographic order on character sequences and on package ids, used to
//! sort the report deterministically.

use vstd::prelude::*;
use vstd::string::StrSliceExecFns;
use crate::package::{PackageId, PkgView};

verus! {

/// Strict lexicographic order on character sequences, comparing characters
/// by their unicode scalar values; a proper prefix comes first.
pub open spec fn lex_lt(a: Seq<char>, b: Seq<char>) -> bool
    decreases a.len(),
{
    if b.len() == 0 {
        false
    } else if a.len() == 0 {
        true
    } else if a[0] < b[0] {
        true
    } else if b[0] < a[0] {
        false
    } else {
        lex_lt(a.drop_first(), b.drop_first())
    }
}

/// Strict order on package ids: by name, then by version.
pub open spec fn pid_lt(a: PkgView, b: PkgView) -> bool {
    lex_lt(a.name, b.name) || (a.name == b.name && lex_lt(a.version, b.version))
}

/// Reflexive order on package ids.
pub open spec fn pid_le(a: PkgView, b: PkgView) -> bool {
    pid_lt(a, b) || a == b
}

/// `lex_lt` never holds of a sequence and itself.
pub proof fn lemma_lex_lt_irrefl(a: Seq<char>)
    ensures
        !lex_lt(a, a),
    decreases a.len(),
{
    if a.len() > 0 {
        lemma_lex_lt_irrefl(a.drop_first());
    }
}

/// Of two distinct sequences, one is lexicographically smaller.
pub proof fn lemma_lex_lt_total(a: Seq<char>, b: Seq<char>)
    ensures
        lex_lt(a, b) || lex_lt(b, a) || a == b,
    decreases a.len(),
{
    if a.len() == 0 || b.len() == 0 {
        if a.len() == 0 && b.len() == 0 {
            assert(a =~= b);
        }
    } else if a[0] < b[0] || b[0] < a[0] {
    } else {
        assert(a[0] == b[0]);
        lemma_lex_lt_total(a.drop_first(), b.drop_first());
        if a.drop_first() == b.drop_first() {
            assert(a.drop_first().len() == b.drop_first().len());
            assert(b.len() == a.len());
            assert forall|i: int| 0 <= i < a.len() implies a[i] == b[i] by {
                if i > 0 {
                    assert(a.drop_first()[i - 1] == a[i]);
                    assert(b.drop_first()[i - 1] == b[i]);
                }
            }
            assert(a =~= b);
        }
    }
}

/// `lex_lt` is transitive.
pub proof fn lemma_lex_lt_trans(a: Seq<char>, b: Seq<char>, c: Seq<char>)
    requires
        lex_lt(a, b),
        lex_lt(b, c),
    ensures
        lex_lt(a, c),
    decreases a.len(),
{
    if a.len() == 0 {
    } else {
        if a[0] < b[0] {
        } else {
            assert(a[0] == b[0]);
        }
        if b[0] < c[0] {
        } else {
            assert(b[0] == c[0]);
        }
        if a[0] == b[0] && b[0] == c[0] {
            lemma_lex_lt_trans(a.drop_first(), b.drop_first(), c.drop_first());
        }
    }
}

/// `pid_le` is a total order on package ids.
pub proof fn lemma_pid_le_total(a: PkgView, b: PkgView)
    ensures
        pid_le(a, b) || pid_le(b, a),
        pid_le(a, b) && pid_le(b, a) ==> a == b,
{
    if pid_lt(a, b) && pid_lt(b, a) {
        if lex_lt(a.name, b.name) && lex_lt(b.name, a.name) {
            lemma_lex_lt_trans(a.name, b.name, a.name);
        }
        if lex_lt(a.version, b.version) && lex_lt(b.version, a.version) {
            lemma_lex_lt_trans(a.version, b.version, a.version);
        }
        lemma_lex_lt_irrefl(a.name);
        lemma_lex_lt_irrefl(a.version);
    }
    lemma_lex_lt_total(a.name, b.name);
    lemma_lex_lt_total(a.version, b.version);
    if a.name == b.name && a.version == b.version {
        assert(a =~= b);
    }
}

/// `pid_le` is transitive.
pub proof fn lemma_pid_le_trans(a: PkgView, b: PkgView, c: PkgView)
    requires
        pid_le(a, b),
        pid_le(b, c),
    ensures
        pid_le(a, c),
{
    if a == b || b == c {
    } else {
        if lex_lt(a.name, b.name) && lex_lt(b.name, c.name) {
            lemma_lex_lt_trans(a.name, b.name, c.name);
        } else if a.name == b.name && b.name == c.name {
            lemma_lex_lt_trans(a.version, b.version, c.version);
        }
    }
}

/// Whether `a` is lexicographically before `b` from position `i` on.
fn lex_lt_from(a: &str, b: &str, i: usize, alen: usize, blen: usize) -> (r: bool)
    requires
        alen == a@.len(),
        blen == b@.len(),
        i <= alen,
        i <= blen,
    ensures
        r == lex_lt(a@.skip(i as int), b@.skip(i as int)),
    decreases alen - i,
{
    proof {
        assert(a@.skip(i as int).len() == alen - i);
        assert(b@.skip(i as int).len() == blen - i);
    }
    if i == blen {
        false
    } else if i == alen {
        true
    } else {
        let ca = a.get_char(i);
        let cb = b.get_char(i);
        assert(a@.skip(i as int)[0] == a@[i as int]);
        assert(b@.skip(i as int)[0] == b@[i as int]);
        if ca < cb {
            true
        } else if cb < ca {
            false
        } else {
            let r = lex_lt_from(a, b, i + 1, alen, blen);
            proof {
                assert(a@.skip(i as int).drop_first() =~= a@.skip(i + 1));
                assert(b@.skip(i as int).drop_first() =~= b@.skip(i + 1));
            }
            r
        }
    }
}

/// Whether `a` is lexicographically before `b`.
pub fn str_lt(a: &str, b: &str) -> (r: bool)
    ensures
        r == lex_lt(a@, b@),
{
    let alen = a.unicode_len();
    let blen = b.unicode_len();
    let r = lex_lt_from(a, b, 0, alen, blen);
    proof {
        assert(a@.skip(0) =~= a@);
        assert(b@.skip(0) =~= b@);
    }
    r
}

impl PackageId {
    /// Whether `self` comes strictly before `other`: by name, then version.
    pub fn before(&self, other: &PackageId) -> (r: bool)
        ensures
            r == pid_lt(self@, other@),
    {
        if str_lt(self.name.as_str(), other.name.as_str()) {
            true
        } else if str_lt(other.name.as_str(), self.name.as_str()) {
            false
        } else {
            proof {
                lemma_lex_lt_total(self@.name, other@.name);
            }
            str_lt(self.version.as_str(), other.version.as_str())
        }
    }

    /// Whether `self` comes before `other` or equals it.
    pub fn before_or_same(&self, other: &PackageId) -> (r: bool)
        ensures
            r == pid_le(self@, other@),
    {
        let r = self.before(other) || self.same(other);
        proof {
            lemma_lex_lt_irrefl(self@.name);
        }
        r
    }
}

} // verus!
