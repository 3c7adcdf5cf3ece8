use vstd::prelude::*;

verus! {

/// What an item is good for.
#[derive(Clone, Copy, PartialEq, Eq, Debug, Structural)]
pub enum ItemTag {
    Axe,
    Pickaxe,
    Stone,
    Log,
    BasicBuildMaterial,
}

/// An item: what it is good for and who has claimed it, by entity handle.
pub struct Item {
    pub tags: Vec<ItemTag>,
    pub reserved: Option<u64>,
}

/// Marks an item carried by the holder with the given entity handle.
#[derive(Clone, Copy)]
pub struct InInventory {
    pub holder: u64,
}

/// Asks for the item with the given entity handle to be destroyed.
#[derive(Clone, Copy)]
pub struct DestroyItemEvent {
    pub entity: u64,
}

/// Whether every tag of `test` is among `all`.
pub fn test_item_tags(all: &[ItemTag], test: &[ItemTag]) -> (r: bool)
    ensures
        r == (forall|i: int| 0 <= i < test@.len() ==> all@.contains(#[trigger] test@[i])),
{
    let mut i: usize = 0;
    while i < test.len()
        invariant
            i <= test@.len(),
            forall|k: int| 0 <= k < i ==> all@.contains(#[trigger] test@[k]),
        decreases test@.len() - i,
    {
        let tag = test[i];
        let mut found = false;
        let mut j: usize = 0;
        while j < all.len()
            invariant
                j <= all@.len(),
                found == (exists|k: int| 0 <= k < j && all@[k] == tag),
            decreases all@.len() - j,
        {
            if all[j] == tag {
                found = true;
            }
            j = j + 1;
        }
        if !found {
            assert(!all@.contains(test@[i as int]));
            return false;
        }
        i = i + 1;
    }
    true
}

} // verus!
