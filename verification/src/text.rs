//! Texts as keys, and the putting together of messages.

use vstd::prelude::*;
use vstd::string::*;
use crate::order::Key;

verus! {

/// Whether the two texts have the same first `n` characters.
pub open spec fn agree_up_to(a: Seq<char>, b: Seq<char>, n: int) -> bool {
    &&& 0 <= n <= a.len()
    &&& n <= b.len()
    &&& forall|i: int| 0 <= i < n ==> #[trigger] a[i] == b[i]
}

/// Whether text `a` comes before text `b` by code points: at the first place where they differ
/// `a` has the smaller character, or `a` ends there.
pub open spec fn before(a: Seq<char>, b: Seq<char>) -> bool {
    exists|n: int| #[trigger]
        agree_up_to(a, b, n) && n < b.len() && (n == a.len() || a[n] < b[n])
}

/// The length of the longest common beginning of two texts.
proof fn lemma_first_difference(a: Seq<char>, b: Seq<char>, from: int) -> (n: int)
    requires
        agree_up_to(a, b, from),
    ensures
        agree_up_to(a, b, n),
        n == a.len() || n == b.len() || a[n] != b[n],
    decreases a.len() - from,
{
    if from == a.len() || from == b.len() || a[from] != b[from] {
        from
    } else {
        lemma_first_difference(a, b, from + 1)
    }
}

impl Key for String {
    open spec fn precedes(a: Seq<char>, b: Seq<char>) -> bool {
        before(a, b)
    }

    fn is_before(&self, other: &Self) -> (result: bool) {
        let a = self.as_str();
        let b = other.as_str();
        let a_len: usize = a.unicode_len();
        let b_len: usize = b.unicode_len();
        let mut i: usize = 0;
        while i < a_len && i < b_len
            invariant
                a_len == a@.len(),
                b_len == b@.len(),
                a@ == self@,
                b@ == other@,
                agree_up_to(a@, b@, i as int),
            decreases a_len - i,
        {
            let c = a.get_char(i);
            let d = b.get_char(i);
            if c != d {
                proof {
                    if before(a@, b@) {
                        let n = choose|n: int| #[trigger]
                            agree_up_to(a@, b@, n) && n < b@.len() && (n == a@.len() || a@[n]
                                < b@[n]);
                        if n < i {
                            assert(a@[n] == b@[n]);
                        }
                        if n > i {
                            assert(a@[i as int] == b@[i as int]);
                        }
                    }
                }
                return (c as u32) < (d as u32);
            }
            i += 1;
        }
        proof {
            if before(a@, b@) {
                let n = choose|n: int| #[trigger]
                    agree_up_to(a@, b@, n) && n < b@.len() && (n == a@.len() || a@[n] < b@[n]);
                if n < i {
                    assert(a@[n] == b@[n]);
                }
            }
        }
        i < b_len
    }

    proof fn order_is_irreflexive(a: Seq<char>) {
    }

    proof fn order_is_transitive(a: Seq<char>, b: Seq<char>, c: Seq<char>) {
        let n = choose|n: int| #[trigger]
            agree_up_to(a, b, n) && n < b.len() && (n == a.len() || a[n] < b[n]);
        let m = choose|m: int| #[trigger]
            agree_up_to(b, c, m) && m < c.len() && (m == b.len() || b[m] < c[m]);
        let k = if n < m { n } else { m };
        assert(agree_up_to(a, c, k));
        if n < m {
            assert(b[n] == c[n]);
        } else if m < n {
            assert(a[m] == b[m]);
        }
    }

    proof fn order_is_total(a: Seq<char>, b: Seq<char>) {
        let n = lemma_first_difference(a, b, 0);
        if n == a.len() && n == b.len() {
            assert(a =~= b);
        }
        assert(agree_up_to(b, a, n));
    }
}

/// One text after the other.
pub fn join(a: &str, b: &str) -> (result: String)
    ensures
        result@ == a@ + b@,
{
    let mut result = String::from_str(a);
    result.append(b);
    result
}

/// Three texts, one after the other.
pub fn join3(a: &str, b: &str, c: &str) -> (result: String)
    ensures
        result@ == a@ + b@ + c@,
{
    let mut result = join(a, b);
    result.append(c);
    result
}

/// Five texts, one after the other.
pub fn join5(a: &str, b: &str, c: &str, d: &str, e: &str) -> (result: String)
    ensures
        result@ == a@ + b@ + c@ + d@ + e@,
{
    let mut result = join3(a, b, c);
    result.append(d);
    result.append(e);
    result
}

} // verus!
