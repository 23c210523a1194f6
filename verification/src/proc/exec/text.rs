//! Text in raw bytes.
use vstd::prelude::*;
use vstd::utf8::{decode_utf8, valid_utf8};

verus! {

/// The bytes up to the first zero, or all.
pub open spec fn until_nul(b: Seq<u8>) -> Seq<u8>
    decreases b.len(),
{
    if b.len() == 0 || b[0] == 0 {
        Seq::empty()
    } else {
        seq![b[0]] + until_nul(b.drop_first())
    }
}

/// The bytes from `start` up to the first zero, `end` at the latest.
pub fn cut_at_nul(b: &[u8], start: usize, end: usize) -> (r: Vec<u8>)
    requires
        start <= end <= b@.len(),
    ensures
        r@ == until_nul(b@.subrange(start as int, end as int)),
{
    let mut r: Vec<u8> = Vec::new();
    let mut i: usize = start;
    let ghost all = until_nul(b@.subrange(start as int, end as int));
    assert(r@ + all =~= all);
    while i < end && b[i] != 0
        invariant
            start <= i <= end <= b@.len(),
            all == until_nul(b@.subrange(start as int, end as int)),
            all == r@ + until_nul(b@.subrange(i as int, end as int)),
        decreases end - i,
    {
        let ghost r0 = r@;
        let ghost rest = b@.subrange(i as int, end as int);
        assert(rest.drop_first() =~= b@.subrange(i + 1, end as int));
        r.push(b[i]);
        assert(r0 + (seq![b@[i as int]] + until_nul(rest.drop_first())) =~= r@ + until_nul(
            rest.drop_first(),
        ));
        i += 1;
    }
    assert(r@ + Seq::<u8>::empty() =~= r@);
    r
}

/// The text in the bytes, where they are well-formed UTF-8.
///
/// The call is `core::str::from_utf8`, which accepts exactly well-formed UTF-8 and keeps the
/// characters as they are.
#[verifier::external_body]
pub(crate) fn utf8_text(b: &[u8]) -> (r: Option<String>)
    ensures
        r is Some <==> valid_utf8(b@),
        r matches Some(s) ==> s@ == decode_utf8(b@),
{
    match core::str::from_utf8(b) {
        Ok(s) => Some(String::from(s)),
        Err(_) => None,
    }
}

/// Text in raw bytes goes up to the first zero, and to the end where there is none.
pub proof fn law_text_ends_at_zero(b: Seq<u8>) -> (n: int)
    ensures
        0 <= n <= b.len(),
        until_nul(b) == b.subrange(0, n),
        forall|i: int| 0 <= i < n ==> #[trigger] b[i] != 0,
        n < b.len() ==> b[n] == 0,
    decreases b.len(),
{
    if b.len() == 0 || b[0] == 0 {
        assert(until_nul(b) =~= b.subrange(0, 0));
        0
    } else {
        let c = b.drop_first();
        let m = law_text_ends_at_zero(c);
        assert forall|i: int| 0 <= i < m + 1 implies #[trigger] b[i] != 0 by {
            if i > 0 {
                assert(c[i - 1] == b[i]);
            }
        }
        assert(until_nul(b) =~= b.subrange(0, m + 1));
        m + 1
    }
}

} // verus!
