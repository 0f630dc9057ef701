use vstd::prelude::*;

verus! {

/// Whether `hay[k]` is one of the three bytes `a`, `b`, `c`.
pub open spec fn is_one_of(hay: Seq<u8>, k: int, a: u8, b: u8, c: u8) -> bool {
    hay[k] == a || hay[k] == b || hay[k] == c
}

/// Whether the three bytes of `hay` from `k` on are `b b b`.
pub open spec fn is_triple(hay: Seq<u8>, k: int, b: u8) -> bool {
    0 <= k && k + 3 <= hay.len() && hay[k] == b && hay[k + 1] == b && hay[k + 2] == b
}

/// Relies on `memchr::memchr3`: the index of the first byte of `hay` that is
/// one of `a`, `b`, `c`, or `None` where there is none.
#[verifier::external_body]
pub(crate) fn first_of_three(a: u8, b: u8, c: u8, hay: &[u8]) -> (r: Option<usize>)
    ensures
        match r {
            Some(k) => k < hay@.len() && is_one_of(hay@, k as int, a, b, c) && forall|m: int|
                0 <= m < k ==> !is_one_of(hay@, m, a, b, c),
            None => forall|m: int| 0 <= m < hay@.len() ==> !is_one_of(hay@, m, a, b, c),
        },
{
    memchr::memchr3(a, b, c, hay)
}

/// Relies on `memchr::memmem::find`: the index of the first occurrence of
/// `needle` in `hay`, or `None` where it does not occur; here the needle is
/// `b` three times.
#[verifier::external_body]
pub(crate) fn first_triple(b: u8, hay: &[u8]) -> (r: Option<usize>)
    ensures
        match r {
            Some(k) => is_triple(hay@, k as int, b) && forall|m: int|
                0 <= m < k ==> !is_triple(hay@, m, b),
            None => forall|m: int| 0 <= m ==> !is_triple(hay@, m, b),
        },
{
    memchr::memmem::find(hay, &[b, b, b])
}

} // verus!
