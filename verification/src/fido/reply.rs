//! Handing a response to the caller's buffer.

use vstd::prelude::*;

use crate::fido::error::{CtapError, CtapResult};

verus! {

/// `reply` stands at the front of the buffer, the rest of which is untouched;
/// a reply that does not fit is refused and the buffer left alone.
pub open spec fn delivered(
    before: Seq<u8>,
    after: Seq<u8>,
    reply: Seq<u8>,
    r: CtapResult,
) -> bool {
    if reply.len() <= before.len() {
        &&& r == Ok::<usize, CtapError>(reply.len() as usize)
        &&& after == reply + before.skip(reply.len() as int)
    } else {
        &&& r == Err::<usize, CtapError>(CtapError::Other)
        &&& after == before
    }
}

/// Copies a response to the front of the buffer.
pub(crate) fn deliver(out: &mut [u8], reply: &[u8]) -> (r: CtapResult)
    ensures
        delivered(old(out)@, final(out)@, reply@, r),
{
    let n: usize = reply.len();
    let total: usize = out.len();
    if n > total {
        return Err(CtapError::Other);
    }
    let ghost before = out@;
    let mut i: usize = 0;
    while i < n
        invariant
            i <= n,
            n == reply@.len(),
            n <= total,
            total == out@.len(),
            out@.len() == before.len(),
            forall|x: int|
                0 <= x < out@.len() ==> #[trigger] out@[x] == (if x < i {
                    reply@[x]
                } else {
                    before[x]
                }),
        decreases n - i,
    {
        out[i] = reply[i];
        i += 1;
    }
    assert(out@ =~= reply@ + before.skip(n as int));
    Ok(n)
}

/// An answer that fits stands at the front of the buffer, with its length as the
/// result, and what is behind it stays; one that does not fit is refused, and the
/// buffer stays as it was.
pub proof fn law_delivered(before: Seq<u8>, after: Seq<u8>, reply: Seq<u8>, r: CtapResult)
    requires
        delivered(before, after, reply, r),
        before.len() <= usize::MAX,
    ensures
        after.len() == before.len(),
        r is Ok <==> reply.len() <= before.len(),
        r matches Ok(n) ==> n == reply.len() && after.subrange(0, n as int) == reply
            && after.subrange(n as int, after.len() as int) == before.subrange(
            n as int,
            before.len() as int,
        ),
        r is Err ==> r == Err::<usize, CtapError>(CtapError::Other) && after == before,
{
    if reply.len() <= before.len() {
        let n = reply.len() as int;
        assert(after.subrange(0, n) =~= reply);
        assert(after.subrange(n, after.len() as int) =~= before.subrange(n, before.len() as int));
    }
}

}
