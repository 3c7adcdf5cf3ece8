use vstd::prelude::*;

verus! {

/// A pending light update: the light value to bring to a world position.
pub struct LightNode {
    pub x: u32,
    pub y: u32,
    pub z: u32,
    pub value: u8,
}

/// The queue of light updates still to spread.
pub struct Lights {
    queue: Vec<LightNode>,
}

impl View for Lights {
    /// The queued updates as `(x, y, z, value)`, oldest first.
    type V = Seq<(u32, u32, u32, u8)>;

    closed spec fn view(&self) -> Seq<(u32, u32, u32, u8)> {
        Seq::new(self.queue@.len(), |i: int| (self.queue@[i].x, self.queue@[i].y, self.queue@[i].z, self.queue@[i].value))
    }
}

impl Lights {
    pub fn new() -> (r: Self)
        ensures
            r@ == Seq::<(u32, u32, u32, u8)>::empty(),
    {
        let r = Lights { queue: Vec::new() };
        assert(r@ =~= Seq::<(u32, u32, u32, u8)>::empty());
        r
    }

    /// Queues a light of strength `value` at `(x, y, z)`.
    pub fn add_light(&mut self, x: u32, y: u32, z: u32, value: u8)
        ensures
            final(self)@ == old(self)@.push((x, y, z, value)),
    {
        self.queue.push(LightNode { x, y, z, value });
        assert(self@ =~= old(self)@.push((x, y, z, value)));
    }
}

} // verus!
