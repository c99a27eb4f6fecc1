//! The broker's scheduling: datagrams held until they are due, handed out
//! earliest first.

use vstd::prelude::*;

verus! {

/// A datagram held until it is due.
pub struct PacketWrapper {
    content: Vec<u8>,
    /// When it is due, in milliseconds of a monotonic clock.
    send_at: u64,
}

impl PacketWrapper {
    /// The held bytes.
    pub closed spec fn bytes(&self) -> Seq<u8> {
        self.content@
    }

    /// When the datagram is due.
    pub closed spec fn due_at(&self) -> u64 {
        self.send_at
    }

    /// Holds `content` until `send_in_millis` after `now`; a due time past
    /// the clock's range is held at its end.
    pub fn new(content: Vec<u8>, now: u64, send_in_millis: u32) -> (r: Self)
        ensures
            r.bytes() == content@,
            r.due_at() == if now as int + send_in_millis as int <= u64::MAX {
                (now + send_in_millis) as u64
            } else {
                u64::MAX
            },
    {
        let send_at = now.saturating_add(send_in_millis as u64);
        PacketWrapper { content, send_at }
    }

    /// Milliseconds from `now` until the datagram is due; 0 once it is.
    pub fn send_in(&self, now: u64) -> (r: u64)
        ensures
            r == if self.due_at() > now {
                (self.due_at() - now) as u64
            } else {
                0
            },
    {
        if self.send_at > now {
            self.send_at - now
        } else {
            0
        }
    }

    /// Whether the datagram is due at `now`.
    pub fn should_be_send(&self, now: u64) -> (r: bool)
        ensures
            r == (self.due_at() <= now),
    {
        self.send_at <= now
    }

    /// The held bytes.
    pub fn content(&self) -> (r: &Vec<u8>)
        ensures
            r@ == self.bytes(),
    {
        &self.content
    }

    fn send_at(&self) -> (r: u64)
        ensures
            r == self.due_at(),
    {
        self.send_at
    }
}

/// The first `max_packet_size` bytes of a datagram at most.
pub fn clamp_datagram(buff: &[u8], max_packet_size: u32) -> (r: Vec<u8>)
    ensures
        r@ == buff@.subrange(
            0,
            if buff@.len() <= max_packet_size as int {
                buff@.len() as int
            } else {
                max_packet_size as int
            },
        ),
{
    let length = if buff.len() <= max_packet_size as usize {
        buff.len()
    } else {
        max_packet_size as usize
    };
    vstd::slice::slice_to_vec(&buff[0..length])
}

/// Whether the held datagram at `i` is due no later than any other.
pub open spec fn is_earliest(items: Seq<PacketWrapper>, i: int) -> bool {
    &&& 0 <= i < items.len()
    &&& forall|j: int| 0 <= j < items.len() ==> items[i].due_at() <= #[trigger] items[j].due_at()
}

/// The datagrams one direction of the broker holds.
pub struct PacketQueue {
    items: Vec<PacketWrapper>,
}

impl PacketQueue {
    /// The held datagrams, in no particular order.
    pub closed spec fn held(&self) -> Seq<PacketWrapper> {
        self.items@
    }

    pub fn new() -> (r: Self)
        ensures
            r.held().len() == 0,
    {
        PacketQueue { items: Vec::new() }
    }

    pub fn len(&self) -> (r: usize)
        ensures
            r == self.held().len(),
    {
        self.items.len()
    }

    /// Holds one more datagram.
    pub fn push(&mut self, wrapper: PacketWrapper)
        ensures
            final(self).held() == old(self).held().push(wrapper),
    {
        self.items.push(wrapper);
    }

    /// The position of an earliest datagram, if any is held.
    fn earliest(&self) -> (r: Option<usize>)
        ensures
            match r {
                Some(i) => is_earliest(self.held(), i as int),
                None => self.held().len() == 0,
            },
    {
        if self.items.len() == 0 {
            return None;
        }
        let mut best: usize = 0;
        let mut i: usize = 1;
        while i < self.items.len()
            invariant
                0 <= best < i <= self.items@.len(),
                forall|j: int| 0 <= j < i ==> self.items@[best as int].due_at() <= #[trigger] self.items@[j].due_at(),
            decreases self.items@.len() - i,
        {
            if self.items[i].send_at() < self.items[best].send_at() {
                best = i;
            }
            i = i + 1;
        }
        Some(best)
    }

    /// When the earliest held datagram is due, if any is held.
    pub fn next_due(&self) -> (r: Option<u64>)
        ensures
            match r {
                Some(t) => exists|i: int| is_earliest(self.held(), i) && self.held()[i].due_at() == t,
                None => self.held().len() == 0,
            },
    {
        match self.earliest() {
            Some(i) => Some(self.items[i].send_at()),
            None => None,
        }
    }

    /// Milliseconds to wait at `now` for the earliest datagram, at most
    /// `limit`: the whole `limit` when nothing is held.
    pub fn wait_time(&self, now: u64, limit: u64) -> (r: u64)
        ensures
            r <= limit,
            self.held().len() == 0 ==> r == limit,
            forall|i: int| is_earliest(self.held(), i) ==> r == if self.held()[i].due_at() > now {
                if self.held()[i].due_at() - now <= limit {
                    (self.held()[i].due_at() - now) as u64
                } else {
                    limit
                }
            } else {
                0
            },
    {
        match self.earliest() {
            Some(i) => {
                let wait = self.items[i].send_in(now);
                if wait <= limit {
                    wait
                } else {
                    limit
                }
            },
            None => limit,
        }
    }

    /// Takes out an earliest datagram when it is due at `now`; otherwise
    /// holds everything and returns nothing.
    pub fn pop_due(&mut self, now: u64) -> (r: Option<PacketWrapper>)
        ensures
            match r {
                Some(w) => exists|i: int| {
                    &&& is_earliest(old(self).held(), i)
                    &&& old(self).held()[i] == w
                    &&& w.due_at() <= now
                    &&& final(self).held() == old(self).held().remove(i)
                },
                None => final(self).held() == old(self).held() && forall|i: int|
                    is_earliest(old(self).held(), i) ==> old(self).held()[i].due_at() > now,
            },
    {
        match self.earliest() {
            Some(i) => {
                if self.items[i].send_at() <= now {
                    let w = self.items.remove(i);
                    Some(w)
                } else {
                    None
                }
            },
            None => None,
        }
    }
}

} // verus!
