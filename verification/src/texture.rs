use vstd::prelude::*;

verus! {

/// Pads `texels` with zeros until it holds `count` items.
pub fn add_i32_zeros(texels: &mut Vec<i32>, count: i32)
    requires
        0 <= count,
        old(texels).len() <= count,
    ensures
        final(texels)@.len() == count,
        final(texels)@.subrange(0, old(texels)@.len() as int) == old(texels)@,
        forall|k: int| old(texels)@.len() <= k < count ==> final(texels)@[k] == 0,
{
    let target: usize = count as usize;
    while texels.len() < target
        invariant
            target == count,
            old(texels).len() <= texels.len() <= target,
            texels@.subrange(0, old(texels)@.len() as int) == old(texels)@,
            forall|k: int| old(texels)@.len() <= k < texels.len() ==> texels@[k] == 0,
        decreases target - texels.len(),
    {
        texels.push(0i32);
    }
}

/// Pads `texels` with copies of `fill` until it holds `count` items.
pub fn pad_with<T: Copy>(texels: &mut Vec<T>, count: i32, fill: T)
    requires
        0 <= count,
        old(texels).len() <= count,
    ensures
        final(texels)@.len() == count,
        final(texels)@.subrange(0, old(texels)@.len() as int) == old(texels)@,
        forall|k: int| old(texels)@.len() <= k < count ==> final(texels)@[k] == fill,
{
    let target: usize = count as usize;
    while texels.len() < target
        invariant
            target == count,
            old(texels).len() <= texels.len() <= target,
            texels@.subrange(0, old(texels)@.len() as int) == old(texels)@,
            forall|k: int| old(texels)@.len() <= k < texels.len() ==> texels@[k] == fill,
        decreases target - texels.len(),
    {
        texels.push(fill);
    }
}

} // verus!
