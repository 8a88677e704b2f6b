//! The producer side of barriers: each producer numbers its barriers and
//! watches the acknowledged sync point.
use vstd::prelude::*;

verus! {

/// A producer of messages for the work loop, with the next sync point it will
/// ask to be acknowledged.
pub struct Producer {
    id: u64,
    next_point: u64,
}

/// `a - b` modulo 2^64.
pub open spec fn wrapping_diff(a: u64, b: u64) -> int {
    if a >= b { a - b } else { a + 0x1_0000_0000_0000_0000 - b }
}

/// Whether sync point `point` is covered by the acknowledgement `acked`: the
/// acknowledged point is at or past it, by less than half the counter's range.
pub open spec fn covered(point: u64, acked: Option<u64>) -> bool {
    match acked {
        Some(a) => wrapping_diff(a, point) < 0x7fff_ffff_ffff_ffff,
        None => false,
    }
}

/// Whether sync point `point` is covered by the acknowledgement `acked`.
pub fn sync_reached(point: u64, acked: Option<u64>) -> (r: bool)
    ensures
        r == covered(point, acked),
{
    match acked {
        Some(a) => {
            let d: u64 = if a >= point { a - point } else { (u64::MAX - point) + a + 1 };
            d < 0x7fff_ffff_ffff_ffff
        },
        None => false,
    }
}

impl Producer {
    /// A producer with identifier `id` whose first sync point is 0.
    pub fn new(id: u64) -> (r: Producer)
        ensures
            r.id_view() == id,
            r.next_view() == 0,
    {
        Producer { id, next_point: 0 }
    }

    /// The producer's identifier.
    pub closed spec fn id_view(&self) -> u64 {
        self.id
    }

    /// The sync point the next barrier will carry.
    pub closed spec fn next_view(&self) -> u64 {
        self.next_point
    }

    /// The producer's identifier.
    pub fn id(&self) -> (r: u64)
        ensures
            r == self.id_view(),
    {
        self.id
    }

    /// Takes the next sync point; the counter wraps.
    pub fn next_sync_point(&mut self) -> (r: u64)
        ensures
            r == old(self).next_view(),
            final(self).id_view() == old(self).id_view(),
            final(self).next_view() == if old(self).next_view() == u64::MAX { 0 } else { (old(self).next_view() + 1) as u64 },
    {
        let r = self.next_point;
        self.next_point = if self.next_point == u64::MAX { 0 } else { self.next_point + 1 };
        r
    }
}

} // verus!
