//! Identifiers as sequences of characters, and the order in which a
//! distribution lists them.

use vstd::prelude::*;
use vstd::string::*;

verus! {

/// `a` and `b` agree on their first `k` characters, and there `a` ends while
/// `b` goes on, or `a` has the character with the smaller code point.
pub open spec fn before_at(a: Seq<char>, b: Seq<char>, k: int) -> bool {
    &&& 0 <= k <= a.len()
    &&& k <= b.len()
    &&& forall|m: int| 0 <= m < k ==> a[m] == b[m]
    &&& if k == a.len() {
        k < b.len()
    } else {
        k < b.len() && (a[k] as u32) < (b[k] as u32)
    }
}

/// `a` comes before `b` in the lexicographic order by code point.
pub open spec fn sorts_before(a: Seq<char>, b: Seq<char>) -> bool {
    exists|k: int| before_at(a, b, k)
}

/// Where one identifier stands relative to another.
#[derive(Clone, Copy, Debug, PartialEq, Eq)]
pub enum Place {
    Before,
    Same,
    After,
}

/// No identifier comes before itself, so one that comes before another differs
/// from it.
pub proof fn lemma_sorts_before_irreflexive(a: Seq<char>, b: Seq<char>)
    requires
        sorts_before(a, b),
    ensures
        a != b,
        !sorts_before(b, a),
{
    let k = choose|k: int| before_at(a, b, k);
    if sorts_before(b, a) {
        let m = choose|m: int| before_at(b, a, m);
        if m < k {
            assert(a[m] == b[m]);
        } else if k < m {
            assert(b[k] == a[k]);
        }
    }
}

/// The order of identifiers is transitive.
pub proof fn lemma_sorts_before_transitive(a: Seq<char>, b: Seq<char>, c: Seq<char>)
    requires
        sorts_before(a, b),
        sorts_before(b, c),
    ensures
        sorts_before(a, c),
{
    let k = choose|k: int| before_at(a, b, k);
    let m = choose|m: int| before_at(b, c, m);
    let first = if k <= m {
        k
    } else {
        m
    };
    assert forall|i: int| 0 <= i < first implies a[i] == c[i] by {
        assert(a[i] == b[i]);
        assert(b[i] == c[i]);
    }
    if k < m {
        assert(b[k] == c[k]);
    } else if m < k {
        assert(a[m] == b[m]);
    }
    assert(before_at(a, c, first));
}

/// Finds where `a` stands relative to `b` in the lexicographic order by code
/// point.
pub fn place_of(a: &str, b: &str) -> (place: Place)
    ensures
        place == Place::Before <==> sorts_before(a@, b@),
        place == Place::Same <==> a@ == b@,
        place == Place::After <==> sorts_before(b@, a@),
{
    let n = a.unicode_len();
    let m = b.unicode_len();
    let mut i: usize = 0;
    while i < n && i < m
        invariant
            n == a@.len(),
            m == b@.len(),
            i <= n,
            i <= m,
            forall|k: int| 0 <= k < i ==> a@[k] == b@[k],
        decreases n - i,
    {
        let x = a.get_char(i) as u32;
        let y = b.get_char(i) as u32;
        if x < y {
            proof {
                assert(before_at(a@, b@, i as int));
                lemma_sorts_before_irreflexive(a@, b@);
            }
            return Place::Before;
        }
        if y < x {
            proof {
                assert(before_at(b@, a@, i as int));
                lemma_sorts_before_irreflexive(b@, a@);
            }
            return Place::After;
        }
        i += 1;
    }
    if n < m {
        proof {
            assert(before_at(a@, b@, i as int));
            lemma_sorts_before_irreflexive(a@, b@);
        }
        Place::Before
    } else if m < n {
        proof {
            assert(before_at(b@, a@, i as int));
            lemma_sorts_before_irreflexive(b@, a@);
        }
        Place::After
    } else {
        proof {
            assert(a@ =~= b@);
            if sorts_before(a@, b@) {
                lemma_sorts_before_irreflexive(a@, b@);
            }
        }
        Place::Same
    }
}

/// The characters of a string, in order.
pub fn chars_of(s: &str) -> (out: Vec<char>)
    ensures
        out@ == s@,
{
    let mut out: Vec<char> = Vec::new();
    let n = s.unicode_len();
    let mut i: usize = 0;
    while i < n
        invariant
            n == s@.len(),
            i <= n,
            out@ == s@.take(i as int),
        decreases n - i,
    {
        out.push(s.get_char(i));
        i += 1;
        assert(s@.take(i as int) =~= s@.take(i - 1).push(s@[i - 1]));
    }
    assert(s@.take(n as int) =~= s@);
    out
}

/// The identifier of a party: its label as a string of one character.
pub fn label_of(s: &str, i: usize) -> (label: String)
    requires
        i < s@.len(),
    ensures
        label@ == seq![s@[i as int]],
{
    // The length fits a `usize`, so `i + 1` does.
    let n = s.unicode_len();
    let label = String::from_str(s.substring_char(i, i + 1));
    assert(label@ =~= seq![s@[i as int]]);
    label
}

} // verus!
