//! Small string helpers over characters.
use vstd::prelude::*;
use vstd::string::StrSliceExecFns;

verus! {

/// Whether two strings hold the same characters.
pub fn str_eq(a: &str, b: &str) -> (r: bool)
    ensures
        r == (a@ == b@),
{
    let n = a.unicode_len();
    if n != b.unicode_len() {
        return false;
    }
    let mut i: usize = 0;
    while i < n
        invariant
            n == a@.len(),
            n == b@.len(),
            0 <= i <= n,
            forall|j: int| 0 <= j < i ==> a@[j] == b@[j],
        decreases n - i,
    {
        if a.get_char(i) != b.get_char(i) {
            return false;
        }
        i += 1;
    }
    proof {
        assert(a@ =~= b@);
    }
    true
}

/// Some string of `list` holds exactly the characters `text`.
pub open spec fn lists_text(list: Seq<String>, text: Seq<char>) -> bool {
    exists|i: int| 0 <= i < list.len() && (#[trigger] list[i])@ == text
}

/// Whether `list` holds a string equal to `text`.
pub fn contains_text(list: &Vec<String>, text: &str) -> (r: bool)
    ensures
        r == lists_text(list@, text@),
{
    let n = list.len();
    let mut k: usize = 0;
    while k < n
        invariant
            n == list@.len(),
            0 <= k <= n,
            forall|j: int| 0 <= j < k ==> (#[trigger] list@[j])@ != text@,
        decreases n - k,
    {
        if str_eq(list[k].as_str(), text) {
            proof {
                assert((list@[k as int])@ == text@);
            }
            return true;
        }
        k += 1;
    }
    false
}

} // verus!
