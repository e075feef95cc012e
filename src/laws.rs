use vstd::prelude::*;
use crate::table::{SessionRecord, expiry_of, swept};

verus! {

/// A session just created sees the default payload at its first access, whenever
/// that access comes.
pub proof fn lemma_new_session_reads_default<D>(created: u64, lifespan: u64, later: u64)
    ensures
        SessionRecord::<D>::fresh(created, lifespan).touched(later, lifespan).data is None,
{
}

/// An access to a live session keeps its payload and sets its expiry one lifespan
/// after the access.
pub proof fn lemma_live_access_keeps_data<D>(rec: SessionRecord<D>, now: u64, lifespan: u64)
    requires
        rec.is_live(now),
    ensures
        rec.touched(now, lifespan).data == rec.data,
        rec.touched(now, lifespan).expires == expiry_of(now, lifespan),
{
}

/// Two accesses within one lifespan keep the payload, and the second never moves
/// the expiry earlier.
pub proof fn lemma_repeat_access<D>(rec: SessionRecord<D>, t1: u64, t2: u64, lifespan: u64)
    requires
        t1 <= t2,
        t2 < expiry_of(t1, lifespan),
    ensures
        rec.touched(t1, lifespan).touched(t2, lifespan).data == rec.touched(t1, lifespan).data,
        rec.touched(t1, lifespan).touched(t2, lifespan).expires >= rec.touched(
            t1,
            lifespan,
        ).expires,
{
}

/// An access to an expired session drops its payload back to the default and sets a
/// new expiry one lifespan after the access.
pub proof fn lemma_expired_access_resets<D>(rec: SessionRecord<D>, now: u64, lifespan: u64)
    requires
        !rec.is_live(now),
    ensures
        rec.touched(now, lifespan).data is None,
        rec.touched(now, lifespan).expires == expiry_of(now, lifespan),
{
}

/// A sweep at `now` keeps exactly the records that expire after `now`, and keeps
/// them unchanged.
pub proof fn lemma_sweep_keeps_exactly_live<D>(m: Map<Seq<char>, SessionRecord<D>>, now: u64)
    ensures
        forall|k: Seq<char>|
            #[trigger] swept(m, now).contains_key(k) <==> (m.contains_key(k) && m[k].expires
                > now),
        forall|k: Seq<char>| #[trigger] swept(m, now).contains_key(k) ==> swept(m, now)[k] == m[k],
{
}

} // verus!
