//! The partition set that an opened engine must hold for a set of
//! definitions.
use vstd::prelude::*;
use crate::schema::{Definition, DefinitionView, views};

verus! {

/// Name of the partition shared by all single records.
pub open spec fn single_record_partition() -> Seq<char> {
    seq!['_', '_', 'S', 'i', 'n', 'g', 'l', 'e', 'R', 'e', 'c', 'o', 'r', 'd']
}

/// The partition name of each collection among `defs`, in order.
pub open spec fn collection_partitions(defs: Seq<DefinitionView>) -> Seq<Seq<char>>
    decreases defs.len(),
{
    if defs.len() == 0 {
        Seq::empty()
    } else {
        collection_partitions(defs.drop_last()) + match defs.last() {
            DefinitionView::Collection { name, .. } => seq![name],
            DefinitionView::SingleRecord { .. } => Seq::empty(),
        }
    }
}

/// Every partition of the engine: the shared single-record partition first,
/// then one per collection.
pub open spec fn partitions_of(defs: Seq<DefinitionView>) -> Seq<Seq<char>> {
    seq![single_record_partition()] + collection_partitions(defs)
}

/// The name of the shared single-record partition.
pub fn single_record_partition_name() -> (r: String)
    ensures
        r@ == single_record_partition(),
{
    let r = "__SingleRecord".to_owned();
    proof {
        reveal_strlit("__SingleRecord");
    }
    assert(r@ =~= single_record_partition());
    r
}

/// The partitions that the engine must be opened with for `defs`.
pub fn partition_names(defs: &Vec<Definition>) -> (r: Vec<String>)
    ensures
        r@.map_values(|s: String| s@) == partitions_of(views(defs@)),
{
    let mut names: Vec<String> = Vec::new();
    names.push(single_record_partition_name());
    let ghost dv = views(defs@);
    let mut i: usize = 0;
    assert(dv.subrange(0, 0) =~= Seq::<DefinitionView>::empty());
    assert(names@.map_values(|s: String| s@) =~= partitions_of(dv.subrange(0, 0)));
    while i < defs.len()
        invariant
            dv == views(defs@),
            i <= defs@.len(),
            names@.map_values(|s: String| s@) == partitions_of(dv.subrange(0, i as int)),
        decreases defs@.len() - i,
    {
        assert(dv.subrange(0, i as int + 1).drop_last() =~= dv.subrange(0, i as int));
        assert(dv.subrange(0, i as int + 1).last() == defs@[i as int]@);
        let ghost before = names@;
        match &defs[i] {
            Definition::Collection(c) => {
                names.push(c.name.clone());
                assert(names@.map_values(|s: String| s@) =~= before.map_values(|s: String| s@).push(
                    c.name@,
                ));
            },
            Definition::SingleRecord(_) => {},
        }
        assert(names@.map_values(|s: String| s@) =~= partitions_of(dv.subrange(0, i as int + 1)));
        i = i + 1;
    }
    assert(dv.subrange(0, defs@.len() as int) =~= dv);
    names
}

} // verus!
