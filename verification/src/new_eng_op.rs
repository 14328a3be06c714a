//! Building traversal engines by name.
use vstd::prelude::*;
use crate::cpq::{pq_allows, ChunkedPQTraverse};
use crate::random_walk::{total_weight, walk_allows, RandomWalk};
use crate::traversal::TraversalEngine;

verus! {

/// The traversal engine with the given name: `"random_walk"` is the weighted
/// random walk and `"cpq"` the chunked priority-queue traversal, drawing from
/// the 4 heaviest atoms; no other name is known.
pub fn build_strategy(key: &str) -> (r: Option<Box<dyn TraversalEngine>>)
    ensures
        r is Some <==> (key@ == "random_walk"@ || key@ == "cpq"@),
        r matches Some(e) ==> (*e).spec_name() == key@,
        r matches Some(e) ==> (key@ == "random_walk"@ ==> {
            &&& forall|m: Map<Seq<u8>, u64>, p: Seq<u8>| #[trigger] (*e).allows(m, p) == walk_allows(m, p)
            &&& forall|m: Map<Seq<u8>, u64>| #[trigger] (*e).may_fail(m) == (total_weight(m) > u64::MAX)
        }),
        r matches Some(e) ==> (key@ == "cpq"@ ==> {
            &&& forall|m: Map<Seq<u8>, u64>, p: Seq<u8>| #[trigger] (*e).allows(m, p) == pq_allows(4, m, p)
            &&& forall|m: Map<Seq<u8>, u64>| !#[trigger] (*e).may_fail(m)
        }),
{
    let k = key.to_owned();
    let random_walk = "random_walk".to_owned();
    if k == random_walk {
        let walk = RandomWalk;
        assert(walk.spec_name() == "random_walk"@);
        let engine: Box<dyn TraversalEngine> = Box::new(walk);
        let ghost given = engine;
        assert((*given).spec_name() == "random_walk"@);
        assert forall|m: Map<Seq<u8>, u64>, p: Seq<u8>| #[trigger] (*given).allows(m, p) == walk_allows(m, p) by {
            assert(walk.allows(m, p) == walk_allows(m, p));
        }
        assert forall|m: Map<Seq<u8>, u64>| #[trigger] (*given).may_fail(m) == (total_weight(m) > u64::MAX) by {
            assert(walk.may_fail(m) == (total_weight(m) > u64::MAX));
        }
        proof {
            reveal_strlit("random_walk");
            reveal_strlit("cpq");
        }
        assert(key@ != "cpq"@);
        let r = Some(engine);
        assert(r == Some(given));
        r
    } else {
        let cpq = "cpq".to_owned();
        if k == cpq {
            let pq = ChunkedPQTraverse::new(4);
            assert(pq.spec_name() == "cpq"@);
            let engine: Box<dyn TraversalEngine> = Box::new(pq);
            let ghost given = engine;
            assert((*given).spec_name() == "cpq"@);
            assert forall|m: Map<Seq<u8>, u64>, p: Seq<u8>| #[trigger] (*given).allows(m, p) == pq_allows(4, m, p) by {
                assert(pq.allows(m, p) == pq_allows(4, m, p));
            }
            assert forall|m: Map<Seq<u8>, u64>| !#[trigger] (*given).may_fail(m) by {
                assert(!pq.may_fail(m));
            }
            proof {
                reveal_strlit("random_walk");
                reveal_strlit("cpq");
            }
            assert(key@ != "random_walk"@);
            let r = Some(engine);
            assert(r == Some(given));
            r
        } else {
            None
        }
    }
}

} // verus!
